//! Ranking criteria and their textual names.
//!
//! A criterion is either one of five fixed names or `asc(field)` /
//! `desc(field)` over a faceted field. The textual form is scanned for
//! the first place an ascending or descending pattern matches, as the
//! original grammar does; the field inside the parentheses is a run of
//! word characters.

use vstd::prelude::*;

use vstd::string::StrSliceExecFns;
use vstd::string::StringExecFns;

verus! {

/// The kind of facet a field carries.
#[derive(Debug)]
pub enum FacetType {
    /// Facet values compared as strings.
    String,
    /// Facet values compared as numbers.
    Number,
}

/// A ranking criterion.
#[derive(Debug)]
pub enum Criterion {
    /// Sorted by increasing number of typos.
    Typo,
    /// Sorted by decreasing number of matched query terms.
    Words,
    /// Sorted by increasing distance between matched query terms.
    Proximity,
    /// Documents with query words in more important attributes come
    /// first.
    Attribute,
    /// Sorted by the similarity of the matched words with the query
    /// words.
    Exactness,
    /// Sorted by the increasing value of the named field.
    Asc(String),
    /// Sorted by the decreasing value of the named field.
    Desc(String),
}

/// What can be wrong with a criterion's textual form.
#[derive(Debug)]
pub enum CriterionError {
    /// The text holds no known name and no ordering pattern.
    UnknownName,
    /// The ordering pattern names a field that is not faceted.
    NotFaceted,
}

/// An ASCII character a field name may hold, apart from the underscore
/// and the dash.
pub open spec fn ascii_word_char(c: char) -> bool {
    ||| ('a' <= c && c <= 'z')
    ||| ('A' <= c && c <= 'Z')
    ||| ('0' <= c && c <= '9')
}

/// Whether a character beyond ASCII counts as alphanumeric; the
/// standard library's classification names it.
pub uninterp spec fn unicode_alphanumeric(c: char) -> bool;

/// Relies on `char::is_alphanumeric`: the outcome depends on the
/// character alone, and on ASCII it holds exactly for letters and
/// digits.
#[verifier::external_body]
fn is_unicode_alphanumeric(c: char) -> (r: bool)
    ensures
        r == unicode_alphanumeric(c),
        (c as u32) < 128 ==> r == ascii_word_char(c),
{
    c.is_alphanumeric()
}

/// A character a field name may hold: a letter or digit of any script,
/// an underscore or a dash.
pub open spec fn word_char(c: char) -> bool {
    ||| ascii_word_char(c)
    ||| c == '_'
    ||| c == '-'
    ||| ((c as u32) >= 128 && unicode_alphanumeric(c))
}

/// The end of the run of word characters starting at `j`.
pub open spec fn run_end(s: Seq<char>, j: int) -> int
    decreases s.len() - j,
{
    if j < 0 || j >= s.len() || !word_char(s[j]) {
        j
    } else {
        run_end(s, j + 1)
    }
}

/// Whether an ordering pattern begins at `i`: the word `asc` or `desc`,
/// an opening parenthesis, a nonempty run of word characters, a closing
/// parenthesis. The flag says whether it was ascending.
pub open spec fn match_at(s: Seq<char>, i: int) -> Option<(bool, Seq<char>)> {
    if i + 4 <= s.len() && s[i] == 'a' && s[i + 1] == 's' && s[i + 2] == 'c' && s[i + 3] == '(' && {
        let e = run_end(s, i + 4);
        e > i + 4 && e < s.len() && s[e] == ')'
    } {
        Some((true, s.subrange(i + 4, run_end(s, i + 4))))
    } else if i + 5 <= s.len() && s[i] == 'd' && s[i + 1] == 'e' && s[i + 2] == 's' && s[i + 3]
        == 'c' && s[i + 4] == '(' && {
        let e = run_end(s, i + 5);
        e > i + 5 && e < s.len() && s[e] == ')'
    } {
        Some((false, s.subrange(i + 5, run_end(s, i + 5))))
    } else {
        None
    }
}

/// The leftmost ordering pattern at or after `i`.
pub open spec fn find_match(s: Seq<char>, i: int) -> Option<(bool, Seq<char>)>
    decreases s.len() - i,
{
    if i < 0 || i >= s.len() {
        None
    } else {
        match match_at(s, i) {
            Some(m) => Some(m),
            None => find_match(s, i + 1),
        }
    }
}

/// Whether some faceted field bears this name.
pub open spec fn is_faceted(faceted: Seq<(String, FacetType)>, name: Seq<char>) -> bool {
    exists|k: int| 0 <= k < faceted.len() && (#[trigger] faceted[k]).0@ == name
}

/// Whether a character may appear in a field name.
fn is_word_char(c: char) -> (r: bool)
    ensures
        r == word_char(c),
{
    let r = is_unicode_alphanumeric(c) || c == '_' || c == '-';
    proof {
        if (c as u32) < 128 {
            assert(!((c as u32) >= 128 && unicode_alphanumeric(c)));
        } else {
            assert(!ascii_word_char(c));
            assert(c != '_' && c != '-');
        }
    }
    r
}

/// Tries the ordering pattern at position `i`; hands back the flag and
/// the field's bounds.
fn try_match_at(txt: &String, n: usize, i: usize) -> (r: Option<(bool, usize, usize)>)
    requires
        n == txt@.len(),
        i < n,
    ensures
        match r {
            Some(m) => match_at(txt@, i as int) == Some(
                (m.0, txt@.subrange(m.1 as int, m.2 as int)),
            ) && i <= m.1 <= m.2 <= n,
            None => match_at(txt@, i as int) is None,
        },
{
    let s = txt.as_str();
    let asc_head = n - i >= 4 && s.get_char(i) == 'a' && s.get_char(i + 1) == 's' && s.get_char(
        i + 2,
    ) == 'c' && s.get_char(i + 3) == '(';
    if asc_head {
        let mut e: usize = i + 4;
        while e < n && is_word_char(s.get_char(e))
            invariant
                i + 4 <= e <= n,
                n == txt@.len(),
                s@ == txt@,
                run_end(txt@, i + 4) == run_end(txt@, e as int),
            decreases n - e,
        {
            e = e + 1;
        }
        proof {
            assert(run_end(txt@, e as int) == e);
        }
        if e > i + 4 && e < n && s.get_char(e) == ')' {
            return Some((true, i + 4, e));
        }
        proof {
            assert(match_at(txt@, i as int) is None);
        }
        return None;
    }
    let desc_head = n - i >= 5 && s.get_char(i) == 'd' && s.get_char(i + 1) == 'e' && s.get_char(
        i + 2,
    ) == 's' && s.get_char(i + 3) == 'c' && s.get_char(i + 4) == '(';
    if desc_head {
        let mut e: usize = i + 5;
        while e < n && is_word_char(s.get_char(e))
            invariant
                i + 5 <= e <= n,
                n == txt@.len(),
                s@ == txt@,
                run_end(txt@, i + 5) == run_end(txt@, e as int),
            decreases n - e,
        {
            e = e + 1;
        }
        proof {
            assert(run_end(txt@, e as int) == e);
        }
        if e > i + 5 && e < n && s.get_char(e) == ')' {
            return Some((false, i + 5, e));
        }
        proof {
            assert(match_at(txt@, i as int) is None);
        }
        return None;
    }
    None
}

impl Criterion {
    /// Reads a criterion from its textual form: one of the five fixed
    /// names, or the leftmost ordering pattern whose field is faceted.
    #[verifier::loop_isolation(false)]
    pub fn from_str(faceted: &Vec<(String, FacetType)>, txt: &String) -> (r: Result<
        Criterion,
        CriterionError,
    >)
        ensures
            txt@ == "typo"@ ==> r == Ok::<Criterion, CriterionError>(Criterion::Typo),
            txt@ == "words"@ ==> r == Ok::<Criterion, CriterionError>(Criterion::Words),
            txt@ == "proximity"@ ==> r == Ok::<Criterion, CriterionError>(Criterion::Proximity),
            txt@ == "attribute"@ ==> r == Ok::<Criterion, CriterionError>(Criterion::Attribute),
            txt@ == "exactness"@ ==> r == Ok::<Criterion, CriterionError>(Criterion::Exactness),
            (txt@ != "typo"@ && txt@ != "words"@ && txt@ != "proximity"@ && txt@ != "attribute"@
                && txt@ != "exactness"@) ==> match find_match(txt@, 0) {
                Some(m) => {
                    if is_faceted(faceted@, m.1) {
                        if m.0 {
                            r matches Ok(c) && c matches Criterion::Asc(f) && f@ == m.1
                        } else {
                            r matches Ok(c) && c matches Criterion::Desc(f) && f@ == m.1
                        }
                    } else {
                        r == Err::<Criterion, CriterionError>(CriterionError::NotFaceted)
                    }
                },
                None => r == Err::<Criterion, CriterionError>(CriterionError::UnknownName),
            },
    {
        proof {
            reveal_strlit("typo");
            reveal_strlit("words");
            reveal_strlit("proximity");
            reveal_strlit("attribute");
            reveal_strlit("exactness");
        }
        if *txt == String::from_str("typo") {
            return Ok(Criterion::Typo);
        }
        if *txt == String::from_str("words") {
            return Ok(Criterion::Words);
        }
        if *txt == String::from_str("proximity") {
            return Ok(Criterion::Proximity);
        }
        if *txt == String::from_str("attribute") {
            return Ok(Criterion::Attribute);
        }
        if *txt == String::from_str("exactness") {
            return Ok(Criterion::Exactness);
        }
        let n = txt.as_str().unicode_len();
        let mut i: usize = 0;
        while i < n
            invariant
                i <= n,
                n == txt@.len(),
                txt@ != "typo"@,
                txt@ != "words"@,
                txt@ != "proximity"@,
                txt@ != "attribute"@,
                txt@ != "exactness"@,
                find_match(txt@, 0) == find_match(txt@, i as int),
            decreases n - i,
        {
            match try_match_at(txt, n, i) {
                Some((asc, from, to)) => {
                    let field = String::from_str(txt.as_str().substring_char(from, to));
                    let ghost fname = txt@.subrange(from as int, to as int);
                    let mut k: usize = 0;
                    let fl = faceted.len();
                    while k < fl
                        invariant
                            k <= fl,
                            fl == faceted@.len(),
                            field@ == fname,
                            forall|q: int| 0 <= q < k ==> (#[trigger] faceted@[q]).0@ != fname,
                        decreases fl - k,
                    {
                        if faceted[k].0 == field {
                            proof {
                                assert(faceted@[k as int].0@ == fname);
                            }
                            if asc {
                                return Ok(Criterion::Asc(field));
                            } else {
                                return Ok(Criterion::Desc(field));
                            }
                        }
                        k = k + 1;
                    }
                    proof {
                        assert(!is_faceted(faceted@, fname));
                    }
                    return Err(CriterionError::NotFaceted);
                },
                None => {},
            }
            i = i + 1;
        }
        Err(CriterionError::UnknownName)
    }

    /// The criterion's textual name, as the configuration shows it.
    pub fn label(&self) -> (r: String)
        ensures
            self is Typo ==> r@ == "typo"@,
            self is Words ==> r@ == "words"@,
            self is Proximity ==> r@ == "proximity"@,
            self is Attribute ==> r@ == "attribute"@,
            self is Exactness ==> r@ == "exactness"@,
            self matches Criterion::Asc(f) ==> r@ == "asc("@ + f@ + ")"@,
            self matches Criterion::Desc(f) ==> r@ == "desc("@ + f@ + ")"@,
    {
        match self {
            Criterion::Typo => String::from_str("typo"),
            Criterion::Words => String::from_str("words"),
            Criterion::Proximity => String::from_str("proximity"),
            Criterion::Attribute => String::from_str("attribute"),
            Criterion::Exactness => String::from_str("exactness"),
            Criterion::Asc(f) => {
                let mut out = String::from_str("asc(");
                out.append(f.as_str());
                out.append(")");
                out
            },
            Criterion::Desc(f) => {
                let mut out = String::from_str("desc(");
                out.append(f.as_str());
                out.append(")");
                out
            },
        }
    }
}

/// The default criteria, in rank order.
pub fn default_criteria() -> (r: Vec<Criterion>)
    ensures
        r@ =~= seq![
            Criterion::Words,
            Criterion::Typo,
            Criterion::Proximity,
            Criterion::Attribute,
            Criterion::Exactness,
        ],
{
    let mut r: Vec<Criterion> = Vec::new();
    r.push(Criterion::Words);
    r.push(Criterion::Typo);
    r.push(Criterion::Proximity);
    r.push(Criterion::Attribute);
    r.push(Criterion::Exactness);
    r
}

} // verus!

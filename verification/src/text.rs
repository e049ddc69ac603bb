//! Text for the structured dumps of the collections.

use std::fmt::Debug;
use vstd::prelude::*;
use vstd::string::StringExecFns;

verus! {

/// Formats `value` with std's `{:?}`. Trusted; nothing is claimed of the text,
/// which is whatever the `Debug` of `T` writes.
#[verifier::external_body]
pub(crate) fn debug_text<T: Debug>(value: &T) -> (text: String) {
    format!("{:?}", value)
}

/// The characters of each string.
pub open spec fn chars_of(texts: Seq<String>) -> Seq<Seq<char>> {
    texts.map_values(|text: String| text@)
}

/// The texts in a row, with `separator` between each two neighbours.
pub open spec fn joined(texts: Seq<Seq<char>>, separator: Seq<char>) -> Seq<char>
    decreases texts.len(),
{
    if texts.len() == 0 {
        Seq::empty()
    } else if texts.len() == 1 {
        texts[0]
    } else {
        joined(texts.drop_last(), separator) + separator + texts.last()
    }
}

/// The texts in a row, with `end` behind each.
pub open spec fn terminated(texts: Seq<Seq<char>>, end: Seq<char>) -> Seq<char>
    decreases texts.len(),
{
    if texts.len() == 0 {
        Seq::empty()
    } else {
        terminated(texts.drop_last(), end) + texts.last() + end
    }
}

/// The text of an entry: the key's text, an arrow, the value's text.
pub open spec fn paired(key: Seq<char>, value: Seq<char>) -> Seq<char> {
    key + " -> "@ + value
}

/// The texts of entries, one for each pair of a key's and a value's text.
pub open spec fn paired_all(shown: Seq<(Seq<char>, Seq<char>)>) -> Seq<Seq<char>> {
    shown.map_values(|pair: (Seq<char>, Seq<char>)| paired(pair.0, pair.1))
}

/// Joins `texts` with `separator` between them.
pub fn join(texts: &Vec<String>, separator: &str) -> (out: String)
    ensures
        out@ == joined(chars_of(texts@), separator@),
{
    let ghost all = chars_of(texts@);
    let mut out = String::new();
    let mut i: usize = 0;
    proof {
        assert(all.take(0) =~= Seq::<Seq<char>>::empty());
    }
    while i < texts.len()
        invariant
            i <= texts@.len(),
            all == chars_of(texts@),
            out@ == joined(all.take(i as int), separator@),
        decreases texts@.len() - i,
    {
        proof {
            assert(all.take(i + 1).drop_last() =~= all.take(i as int));
            assert(all.take(i + 1).last() == texts@[i as int]@);
        }
        if i > 0 {
            out.append(separator);
        }
        out.append(texts[i].as_str());
        proof {
            if i == 0 {
                assert(out@ =~= texts@[0]@);
            }
        }
        i += 1;
    }
    proof {
        assert(all.take(i as int) =~= all);
    }
    out
}

/// Puts `texts` in a row, with `end` behind each.
pub fn terminate(texts: &Vec<String>, end: &str) -> (out: String)
    ensures
        out@ == terminated(chars_of(texts@), end@),
{
    let ghost all = chars_of(texts@);
    let mut out = String::new();
    let mut i: usize = 0;
    proof {
        assert(all.take(0) =~= Seq::<Seq<char>>::empty());
    }
    while i < texts.len()
        invariant
            i <= texts@.len(),
            all == chars_of(texts@),
            out@ == terminated(all.take(i as int), end@),
        decreases texts@.len() - i,
    {
        proof {
            assert(all.take(i + 1).drop_last() =~= all.take(i as int));
            assert(all.take(i + 1).last() == texts@[i as int]@);
        }
        out.append(texts[i].as_str());
        out.append(end);
        i += 1;
    }
    proof {
        assert(all.take(i as int) =~= all);
    }
    out
}

/// The text of an entry from the texts of its key and its value.
pub fn pair(key: String, value: &str) -> (out: String)
    ensures
        out@ == paired(key@, value@),
{
    let mut out = key;
    out.append(" -> ");
    out.append(value);
    out
}

} // verus!

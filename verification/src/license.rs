//! The sections of a license: its data and its signature, each in base 64,
//! with a colon between them.

use crate::strings::push_char;
use vstd::prelude::*;

verus! {

/// The place of the first colon at or behind `from`, or the length of the
/// text where there is none.
pub open spec fn colon_at(text: Seq<char>, from: int) -> int
    decreases text.len() - from,
{
    if from >= text.len() || text[from] == ':' {
        from
    } else {
        colon_at(text, from + 1)
    }
}

/// The data and the signature of a license: what stands before the first
/// colon, and what stands between it and the next colon or the end. A text
/// without a colon has no signature and is no license.
pub open spec fn sections_of(text: Seq<char>) -> Option<(Seq<char>, Seq<char>)> {
    let first = colon_at(text, 0);
    if first >= text.len() {
        None
    } else {
        Some((text.subrange(0, first), text.subrange(first + 1, colon_at(text, first + 1))))
    }
}

/// The license that is written from data and a signature.
pub open spec fn joined(data: Seq<char>, signature: Seq<char>) -> Seq<char> {
    data + seq![':'] + signature
}

proof fn lemma_colon_at(text: Seq<char>, from: int, to: int)
    requires
        0 <= from <= to <= text.len(),
        forall|k: int| from <= k < to ==> text[k] != ':',
        to == text.len() || text[to] == ':',
    ensures
        colon_at(text, from) == to,
    decreases to - from,
{
    if from < to {
        lemma_colon_at(text, from + 1, to);
    }
}

/// Takes a license apart.
pub fn sections(license: &str) -> (r: Option<(String, String)>)
    ensures
        match sections_of(license@) {
            Some((data, signature)) => r is Some && (r->0).0@ == data && (r->0).1@ == signature,
            None => r is None,
        },
{
    let mut data: String = String::new();
    let mut signature: String = String::new();
    // 0: in the data; 1: in the signature; 2: behind the signature.
    let mut section: u8 = 0;
    let ghost mut first: int = 0;
    let ghost mut second: int = 0;
    for c in iter: license.chars()
        invariant
            iter.seq() == license@,
            section <= 2,
            section == 0 ==> data@ == license@.take(iter.index()) && signature@.len() == 0
                && forall|k: int| 0 <= k < iter.index() ==> license@[k] != ':',
            section >= 1 ==> 0 <= first < iter.index() && license@[first] == ':' && data@
                == license@.subrange(0, first) && forall|k: int|
                0 <= k < first ==> license@[k] != ':',
            section == 1 ==> signature@ == license@.subrange(first + 1, iter.index() as int)
                && forall|k: int| first < k < iter.index() ==> license@[k] != ':',
            section == 2 ==> first < second < iter.index() && license@[second] == ':' && signature@
                == license@.subrange(first + 1, second) && forall|k: int|
                first < k < second ==> license@[k] != ':',
    {
        let ghost index = iter.index();
        if section == 0 {
            if c == ':' {
                section = 1;
                proof {
                    first = index;
                    assert(data@ =~= license@.subrange(0, first));
                    assert(signature@ =~= license@.subrange(first + 1, index + 1));
                }
            } else {
                push_char(&mut data, c);
                proof {
                    assert(data@ =~= license@.take(index + 1));
                }
            }
        } else if section == 1 {
            if c == ':' {
                section = 2;
                proof {
                    second = index;
                }
            } else {
                push_char(&mut signature, c);
                proof {
                    assert(signature@ =~= license@.subrange(first + 1, index + 1));
                }
            }
        }
    }
    proof {
        let n = license@.len() as int;
        if section == 0 {
            lemma_colon_at(license@, 0, n);
        } else {
            lemma_colon_at(license@, 0, first);
            if section == 1 {
                lemma_colon_at(license@, first + 1, n);
            } else {
                lemma_colon_at(license@, first + 1, second);
            }
        }
    }
    if section == 0 {
        None
    } else {
        Some((data, signature))
    }
}

/// Writes a license from its data and its signature.
pub fn join(data: &str, signature: &str) -> (r: String)
    ensures
        r@ == joined(data@, signature@),
{
    let mut license: String = String::new();
    vstd::string::StringExecFns::append(&mut license, data);
    push_char(&mut license, ':');
    vstd::string::StringExecFns::append(&mut license, signature);
    proof {
        assert(license@ =~= joined(data@, signature@));
    }
    license
}

} // verus!

//! The words of a text, as the keys of a full-text index.
use vstd::prelude::*;

use crate::index::keys_view;

verus! {

broadcast use vstd::seq::group_seq_axioms;

/// ASCII whitespace: space, tab, line feed, form feed, carriage return.
pub open spec fn is_space(b: u8) -> bool {
    b == 32 || b == 9 || b == 10 || b == 12 || b == 13
}

/// The byte with ASCII upper case turned into lower case.
pub open spec fn lower(b: u8) -> u8 {
    if 65 <= b <= 90 { (b + 32) as u8 } else { b }
}

/// The maximal runs of non-whitespace bytes of `b`, lowercased, in order.
///
/// On UTF-8 text this splits on ASCII whitespace and lowercases ASCII letters:
/// neither kind of byte occurs inside the encoding of another character.
pub open spec fn tokenize(b: Seq<u8>) -> Seq<Seq<u8>>
    decreases b.len(),
{
    if b.len() == 0 {
        seq![]
    } else {
        let t = tokenize(b.drop_last());
        let c = b.last();
        if is_space(c) {
            t
        } else if b.len() >= 2 && !is_space(b[b.len() - 2]) && t.len() > 0 {
            t.drop_last().push(t.last().push(lower(c)))
        } else {
            t.push(seq![lower(c)])
        }
    }
}

/// The elements of `s` without repetitions, each where it first occurs.
pub open spec fn distinct(s: Seq<Seq<u8>>) -> Seq<Seq<u8>>
    decreases s.len(),
{
    if s.len() == 0 {
        seq![]
    } else {
        let r = distinct(s.drop_last());
        if r.contains(s.last()) { r } else { r.push(s.last()) }
    }
}

pub open spec fn no_repeats(s: Seq<Seq<u8>>) -> bool {
    forall|i: int, j: int| 0 <= i < j < s.len() ==> s[i] != s[j]
}

pub proof fn lemma_distinct_no_repeats(s: Seq<Seq<u8>>)
    ensures
        no_repeats(distinct(s)),
    decreases s.len(),
{
    if s.len() > 0 {
        lemma_distinct_no_repeats(s.drop_last());
    }
}

/// The bytes of `b`, lowercased.
pub open spec fn lower_all(b: Seq<u8>) -> Seq<u8> {
    b.map_values(|c: u8| lower(c))
}

fn is_space_exec(b: u8) -> (r: bool)
    ensures
        r == is_space(b),
{
    b == 32 || b == 9 || b == 10 || b == 12 || b == 13
}

fn lower_exec(b: u8) -> (r: u8)
    ensures
        r == lower(b),
{
    if 65 <= b && b <= 90 { b + 32 } else { b }
}

/// The bytes of `b`, lowercased.
pub fn lowercase(b: &[u8]) -> (r: Vec<u8>)
    ensures
        r@ == lower_all(b@),
{
    let mut out: Vec<u8> = Vec::new();
    let mut i: usize = 0;
    while i < b.len()
        invariant
            i <= b@.len(),
            out@ == lower_all(b@.subrange(0, i as int)),
        decreases b@.len() - i,
    {
        out.push(lower_exec(b[i]));
        i = i + 1;
        assert(out@ =~= lower_all(b@.subrange(0, i as int)));
    }
    assert(b@.subrange(0, b@.len() as int) =~= b@);
    out
}

fn contains_word(words: &Vec<Vec<u8>>, w: &Vec<u8>) -> (r: bool)
    ensures
        r == words@.map_values(|v: Vec<u8>| v@).contains(w@),
{
    let ghost ws = words@.map_values(|v: Vec<u8>| v@);
    let mut i: usize = 0;
    while i < words.len()
        invariant
            ws == words@.map_values(|v: Vec<u8>| v@),
            i <= words@.len(),
            forall|j: int| 0 <= j < i ==> ws[j] != w@,
        decreases words@.len() - i,
    {
        if crate::index::bytes_eq(words[i].as_slice(), w.as_slice()) {
            assert(ws[i as int] == w@);
            return true;
        }
        i = i + 1;
    }
    false
}

/// The distinct lowercased words of the text `b`, in order of first occurrence.
pub fn words(b: &[u8]) -> (r: Vec<Vec<u8>>)
    ensures
        keys_view(r@) == distinct(tokenize(b@)),
{
    let mut tokens: Vec<Vec<u8>> = Vec::new();
    let mut current: Vec<u8> = Vec::new();
    let mut in_word = false;
    let mut i: usize = 0;
    while i < b.len()
        invariant
            i <= b@.len(),
            in_word == (i > 0 && !is_space(b@[i - 1])),
            in_word ==> tokenize(b@.subrange(0, i as int)).len() > 0
                && tokens@.map_values(|v: Vec<u8>| v@).push(current@) == tokenize(b@.subrange(0, i as int)),
            !in_word ==> tokens@.map_values(|v: Vec<u8>| v@) == tokenize(b@.subrange(0, i as int)),
        decreases b@.len() - i,
    {
        let c = b[i];
        let ghost pre = b@.subrange(0, i as int);
        let ghost post = b@.subrange(0, i + 1);
        assert(post.drop_last() =~= pre);
        assert(post.last() == c);
        let ghost tv = tokens@.map_values(|v: Vec<u8>| v@);
        if is_space_exec(c) {
            if in_word {
                let w = copy_bytes(&current);
                current = Vec::new();
                tokens.push(w);
                assert(tokens@.map_values(|v: Vec<u8>| v@) =~= tv.push(w@));
            }
            in_word = false;
        } else {
            if in_word {
                let ghost t = tokenize(pre);
                assert(b@[i - 1] == post[post.len() - 2]);
                assert(t.drop_last() =~= tv);
                current.push(lower_exec(c));
            } else {
                current = Vec::new();
                current.push(lower_exec(c));
                assert(current@ =~= seq![lower(c)]);
            }
            in_word = true;
        }
        i = i + 1;
    }
    if in_word {
        let ghost tv = tokens@.map_values(|v: Vec<u8>| v@);
        tokens.push(current);
        assert(tokens@.map_values(|v: Vec<u8>| v@) =~= tv.push(current@));
    }
    assert(b@.subrange(0, b@.len() as int) =~= b@);
    let ghost all = tokens@.map_values(|v: Vec<u8>| v@);
    let mut out: Vec<Vec<u8>> = Vec::new();
    let mut k: usize = 0;
    while k < tokens.len()
        invariant
            all == tokens@.map_values(|v: Vec<u8>| v@),
            all == tokenize(b@),
            k <= tokens@.len(),
            out@.map_values(|v: Vec<u8>| v@) == distinct(all.subrange(0, k as int)),
        decreases tokens@.len() - k,
    {
        assert(all.subrange(0, k + 1).drop_last() =~= all.subrange(0, k as int));
        assert(all[k as int] == tokens@[k as int]@);
        if !contains_word(&out, &tokens[k]) {
            let ghost before = out@.map_values(|v: Vec<u8>| v@);
            let w = copy_bytes(&tokens[k]);
            out.push(w);
            assert(out@.map_values(|v: Vec<u8>| v@) =~= before.push(all[k as int]));
        }
        k = k + 1;
    }
    assert(all.subrange(0, all.len() as int) =~= all);
    assert(keys_view(out@) =~= out@.map_values(|v: Vec<u8>| v@));
    out
}

fn copy_bytes(v: &Vec<u8>) -> (r: Vec<u8>)
    ensures
        r@ == v@,
{
    vstd::slice::slice_to_vec(v.as_slice())
}

} // verus!

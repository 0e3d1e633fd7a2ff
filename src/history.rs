//! Identity of a set of opened files, used to recognise a history entry
//! whatever order the files were given in.
use vstd::prelude::*;
use vstd::string::StringExecFns;

use crate::select::{chars_le, lemma_chars_le_total, lemma_chars_le_trans};
use crate::text::{chars_of, decimal, decimal_chars, string_of};

verus! {

broadcast use vstd::seq_lib::to_multiset_insert, vstd::seq_lib::to_multiset_remove,
    vstd::seq_lib::group_to_multiset_ensures, vstd::multiset::group_multiset_axioms;

/// The pieces joined with `|` between them.
pub open spec fn joined(s: Seq<Seq<char>>) -> Seq<char>
    decreases s.len(),
{
    if s.len() == 0 {
        seq![]
    } else if s.len() == 1 {
        s[0]
    } else {
        joined(s.drop_last()) + seq!['|'] + s.last()
    }
}

pub open spec fn sorted_texts(s: Seq<Seq<char>>) -> bool {
    forall|i: int, j: int| 0 <= i < j < s.len() ==> chars_le(#[trigger] s[i], #[trigger] s[j])
}

pub open spec fn texts(v: Seq<String>) -> Seq<Seq<char>> {
    v.map_values(|s: String| s@)
}

fn sort_texts(items: &[String]) -> (r: Vec<String>)
    ensures
        texts(r@).to_multiset() == texts(items@).to_multiset(),
        sorted_texts(texts(r@)),
{
    let mut out: Vec<String> = Vec::new();
    let mut k: usize = 0;
    while k < items.len()
        invariant
            k <= items@.len(),
            texts(out@).to_multiset() == texts(items@).take(k as int).to_multiset(),
            sorted_texts(texts(out@)),
        decreases items@.len() - k,
    {
        let x = items[k].clone();
        let xc = chars_of(x.as_str());
        let mut p: usize = 0;
        while p < out.len() && chars_le_strings(&out[p], &xc)
            invariant
                p <= out@.len(),
                xc@ == x@,
                forall|j: int| 0 <= j < p ==> chars_le(#[trigger] out@[j]@, x@),
            decreases out@.len() - p,
        {
            p = p + 1;
        }
        let ghost prev = texts(out@);
        proof {
            if p < out@.len() {
                lemma_chars_le_total(out@[p as int]@, x@);
            }
        }
        out.insert(p, x);
        proof {
            let s = texts(out@);
            assert(s =~= prev.insert(p as int, x@));
            assert forall|i: int, j: int| 0 <= i < j < s.len() implies chars_le(#[trigger] s[i], #[trigger] s[j]) by {
                if j < p {
                    assert(chars_le(prev[i], prev[j]));
                } else if i < p && j == p {
                } else if i < p && j > p {
                    assert(chars_le(prev[i], prev[j - 1]));
                } else if i == p {
                    if j - 1 > p {
                        lemma_chars_le_trans(x@, prev[p as int], prev[j - 1]);
                    }
                } else {
                    assert(chars_le(prev[i - 1], prev[j - 1]));
                }
            }
            assert(texts(items@).take(k + 1) =~= texts(items@).take(k as int).push(items@[k as int]@));
        }
        k = k + 1;
    }
    assert(texts(items@).take(items@.len() as int) =~= texts(items@));
    out
}

fn chars_le_strings(a: &String, b: &Vec<char>) -> (r: bool)
    ensures
        r == chars_le(a@, b@),
{
    let ac = chars_of(a.as_str());
    let mut i: usize = 0;
    assert(ac@.skip(0) =~= ac@);
    assert(b@.skip(0) =~= b@);
    while i < ac.len() && i < b.len() && ac[i] == b[i]
        invariant
            i <= ac@.len(),
            i <= b@.len(),
            ac@ == a@,
            chars_le(ac@, b@) == chars_le(ac@.skip(i as int), b@.skip(i as int)),
        decreases ac@.len() - i,
    {
        proof {
            assert(ac@.skip(i as int).drop_first() =~= ac@.skip(i + 1));
            assert(b@.skip(i as int).drop_first() =~= b@.skip(i + 1));
        }
        i = i + 1;
    }
    if i == ac.len() {
        true
    } else if i == b.len() {
        false
    } else {
        ac[i] < b[i]
    }
}

/// The identity of a set of paths: their count, a colon, and the paths in
/// ascending order joined with `|`.
pub fn history_id_from_paths(paths: &[String]) -> (r: String)
    ensures
        exists|s: Seq<Seq<char>>|
            #![trigger joined(s)]
            s.to_multiset() == texts(paths@).to_multiset() && sorted_texts(s) && r@ == decimal(
                paths@.len(),
            ) + seq![':'] + joined(s),
{
    let sorted = sort_texts(paths);
    let mut text = decimal_chars(paths.len() as u64);
    text.push(':');
    let ghost head = text@;
    let mut k: usize = 0;
    while k < sorted.len()
        invariant
            k <= sorted@.len(),
            text@ == head + joined(texts(sorted@).take(k as int)),
        decreases sorted@.len() - k,
    {
        if k > 0 {
            text.push('|');
        }
        let piece = chars_of(sorted[k].as_str());
        let mut j: usize = 0;
        let ghost mid = text@;
        while j < piece.len()
            invariant
                j <= piece@.len(),
                text@ == mid + piece@.take(j as int),
            decreases piece@.len() - j,
        {
            text.push(piece[j]);
            j = j + 1;
            assert(text@ =~= mid + piece@.take(j as int));
        }
        proof {
            assert(piece@.take(piece@.len() as int) =~= piece@);
            let t = texts(sorted@).take(k + 1);
            assert(t.drop_last() =~= texts(sorted@).take(k as int));
            assert(t.last() == piece@);
            if k == 0 {
                assert(texts(sorted@).take(0) =~= Seq::<Seq<char>>::empty());
                assert(text@ =~= head + joined(t));
            } else {
                assert(text@ =~= head + joined(t));
            }
        }
        k = k + 1;
    }
    assert(texts(sorted@).take(sorted@.len() as int) =~= texts(sorted@));
    assert(paths@.len() as u64 as nat == paths@.len());
    string_of(&text)
}

} // verus!

//! Resolution of a remote series into the instances to open: one instance,
//! or a mammography quartet in canonical order.
use vstd::prelude::*;
use vstd::multiset::Multiset;
use vstd::string::StringExecFns;

use crate::dicomweb::{instances_view, opt_view, InstanceView, MetadataInstance};
use crate::mammo::{laterality_class, laterality_class_chars, loose_view_class, loose_view_class_chars};
use crate::text::chars_of;

verus! {

broadcast use vstd::seq_lib::to_multiset_insert, vstd::seq_lib::to_multiset_remove,
    vstd::seq_lib::group_to_multiset_ensures, vstd::multiset::group_multiset_axioms;

pub open spec fn view_rank(m: InstanceView) -> u8 {
    loose_view_class(m.view_position)
}

pub open spec fn laterality_rank(m: InstanceView) -> u8 {
    laterality_class(m.laterality)
}

/// The instance number, with unknown numbers after every known one.
pub open spec fn number_rank(m: InstanceView) -> i32 {
    match m.instance_number {
        Some(n) => n,
        None => i32::MAX,
    }
}

/// Lexicographic order on character sequences (the order of `String`).
pub open spec fn chars_le(a: Seq<char>, b: Seq<char>) -> bool
    decreases a.len(),
{
    if a.len() == 0 {
        true
    } else if b.len() == 0 {
        false
    } else if a[0] != b[0] {
        a[0] < b[0]
    } else {
        chars_le(a.drop_first(), b.drop_first())
    }
}

/// The selection order: view (CC, MLO, other), then laterality (R, L,
/// other), then instance number, then instance UID.
pub open spec fn key_le(a: InstanceView, b: InstanceView) -> bool {
    if view_rank(a) != view_rank(b) {
        view_rank(a) < view_rank(b)
    } else if laterality_rank(a) != laterality_rank(b) {
        laterality_rank(a) < laterality_rank(b)
    } else if number_rank(a) != number_rank(b) {
        number_rank(a) < number_rank(b)
    } else {
        chars_le(a.instance_uid, b.instance_uid)
    }
}

pub open spec fn sorted_by_key(s: Seq<InstanceView>) -> bool {
    forall|i: int, j: int| 0 <= i < j < s.len() ==> key_le(#[trigger] s[i], #[trigger] s[j])
}

pub proof fn lemma_chars_le_total(a: Seq<char>, b: Seq<char>)
    ensures
        chars_le(a, b) || chars_le(b, a),
    decreases a.len(),
{
    if a.len() > 0 && b.len() > 0 && a[0] == b[0] {
        lemma_chars_le_total(a.drop_first(), b.drop_first());
    }
}

pub proof fn lemma_chars_le_trans(a: Seq<char>, b: Seq<char>, c: Seq<char>)
    requires
        chars_le(a, b),
        chars_le(b, c),
    ensures
        chars_le(a, c),
    decreases a.len(),
{
    if a.len() > 0 && b.len() > 0 && c.len() > 0 && a[0] == b[0] && b[0] == c[0] {
        lemma_chars_le_trans(a.drop_first(), b.drop_first(), c.drop_first());
    }
}

pub proof fn lemma_key_le_total(a: InstanceView, b: InstanceView)
    ensures
        key_le(a, b) || key_le(b, a),
{
    lemma_chars_le_total(a.instance_uid, b.instance_uid);
}

pub proof fn lemma_key_le_trans(a: InstanceView, b: InstanceView, c: InstanceView)
    requires
        key_le(a, b),
        key_le(b, c),
    ensures
        key_le(a, c),
{
    if view_rank(a) == view_rank(b) && view_rank(b) == view_rank(c) && laterality_rank(a)
        == laterality_rank(b) && laterality_rank(b) == laterality_rank(c) && number_rank(a)
        == number_rank(b) && number_rank(b) == number_rank(c) {
        lemma_chars_le_trans(a.instance_uid, b.instance_uid, c.instance_uid);
    }
}

fn opt_chars_of(o: &Option<String>) -> (r: Option<Vec<char>>)
    ensures
        match r {
            Some(v) => opt_view(*o) == Some(v@),
            None => o is None,
        },
{
    match o {
        Some(s) => Some(chars_of(s.as_str())),
        None => None,
    }
}

fn view_rank_of(m: &MetadataInstance) -> (r: u8)
    ensures
        r == view_rank(m@),
{
    let v = opt_chars_of(&m.view_position);
    match &v {
        Some(c) => loose_view_class_chars(Some(c.as_slice())),
        None => loose_view_class_chars(None),
    }
}

fn laterality_rank_of(m: &MetadataInstance) -> (r: u8)
    ensures
        r == laterality_rank(m@),
{
    let v = opt_chars_of(&m.laterality);
    match &v {
        Some(c) => laterality_class_chars(Some(c.as_slice())),
        None => laterality_class_chars(None),
    }
}

/// The selection key of an instance (see `key_le`).
pub fn mammo_sort_key(instance: &MetadataInstance) -> (r: (u8, u8, i32, String))
    ensures
        r.0 == view_rank(instance@),
        r.1 == laterality_rank(instance@),
        r.2 == number_rank(instance@),
        r.3@ == instance@.instance_uid,
{
    let n = match instance.instance_number {
        Some(n) => n,
        None => i32::MAX,
    };
    (view_rank_of(instance), laterality_rank_of(instance), n, instance.instance_uid.clone())
}

fn chars_le_exec(a: &[char], b: &[char]) -> (r: bool)
    ensures
        r == chars_le(a@, b@),
{
    let mut i: usize = 0;
    assert(a@.skip(0) =~= a@);
    assert(b@.skip(0) =~= b@);
    while i < a.len() && i < b.len() && a[i] == b[i]
        invariant
            i <= a@.len(),
            i <= b@.len(),
            chars_le(a@, b@) == chars_le(a@.skip(i as int), b@.skip(i as int)),
        decreases a@.len() - i,
    {
        proof {
            assert(a@.skip(i as int).drop_first() =~= a@.skip(i + 1));
            assert(b@.skip(i as int).drop_first() =~= b@.skip(i + 1));
        }
        i = i + 1;
    }
    if i == a.len() {
        true
    } else if i == b.len() {
        false
    } else {
        a[i] < b[i]
    }
}

fn key_le_exec(a: &MetadataInstance, b: &MetadataInstance) -> (r: bool)
    ensures
        r == key_le(a@, b@),
{
    let ka = mammo_sort_key(a);
    let kb = mammo_sort_key(b);
    if ka.0 != kb.0 {
        ka.0 < kb.0
    } else if ka.1 != kb.1 {
        ka.1 < kb.1
    } else if ka.2 != kb.2 {
        ka.2 < kb.2
    } else {
        let ua = chars_of(ka.3.as_str());
        let ub = chars_of(kb.3.as_str());
        chars_le_exec(&ua, &ub)
    }
}

/// Sorts instances by the selection key (see `key_le`).
pub fn sort_instances_for_mammo(instances: &mut Vec<MetadataInstance>)
    ensures
        final(instances)@.len() == old(instances)@.len(),
        instances_view(final(instances)@).to_multiset() == instances_view(
            old(instances)@,
        ).to_multiset(),
        sorted_by_key(instances_view(final(instances)@)),
{
    let ghost orig = instances_view(instances@);
    let mut out: Vec<MetadataInstance> = Vec::new();
    assert(instances_view(out@) =~= Seq::<InstanceView>::empty());
    assert(instances_view(out@).to_multiset().add(orig.to_multiset()) =~= orig.to_multiset());
    while instances.len() > 0
        invariant
            instances_view(out@).to_multiset().add(instances_view(instances@).to_multiset())
                == orig.to_multiset(),
            out@.len() + instances@.len() == orig.len(),
            sorted_by_key(instances_view(out@)),
        decreases instances@.len(),
    {
        let ghost before = instances_view(instances@);
        let x = instances.remove(0);
        proof {
            assert(instances_view(instances@) =~= before.remove(0));
            assert(before[0] == x@);
        }
        let mut p: usize = 0;
        while p < out.len() && key_le_exec(&out[p], &x)
            invariant
                p <= out@.len(),
                forall|k: int| 0 <= k < p ==> key_le(#[trigger] out@[k]@, x@),
            decreases out@.len() - p,
        {
            p = p + 1;
        }
        let ghost prev = instances_view(out@);
        proof {
            if p < out@.len() {
                lemma_key_le_total(out@[p as int]@, x@);
            }
        }
        out.insert(p, x);
        proof {
            let s = instances_view(out@);
            assert(s =~= prev.insert(p as int, x@));
            assert forall|i: int, j: int| 0 <= i < j < s.len() implies key_le(
                #[trigger] s[i],
                #[trigger] s[j],
            ) by {
                if j < p {
                    assert(key_le(prev[i], prev[j]));
                } else if i < p && j == p {
                } else if i < p && j > p {
                    assert(key_le(prev[i], prev[j - 1]));
                } else if i == p {
                    assert(key_le(x@, prev[p as int]));
                    if j - 1 > p {
                        assert(key_le(prev[p as int], prev[j - 1]));
                        lemma_key_le_trans(x@, prev[p as int], prev[j - 1]);
                    }
                } else {
                    assert(key_le(prev[i - 1], prev[j - 1]));
                }
            }
            assert(s.to_multiset() == prev.to_multiset().insert(x@));
            assert(before.contains(before[0]));
            assert(before.to_multiset().count(x@) > 0);
            assert(before.to_multiset().remove(x@).insert(x@) =~= before.to_multiset());
        }
    }
    proof {
        assert(instances_view(instances@).to_multiset() =~= Multiset::empty());
        assert(instances_view(out@).to_multiset().add(Multiset::empty()) =~= instances_view(
            out@,
        ).to_multiset());
    }
    *instances = out;
}

/// The first position at or after `i` of an instance in grid slot (`v`, `l`).
pub open spec fn first_in_slot(s: Seq<InstanceView>, v: u8, l: u8, i: int) -> Option<int>
    decreases s.len() - i,
{
    if i < 0 || i >= s.len() {
        None
    } else if view_rank(s[i]) == v && laterality_rank(s[i]) == l {
        Some(i)
    } else {
        first_in_slot(s, v, l, i + 1)
    }
}

/// The first R-CC, L-CC, R-MLO and L-MLO instances of `s`, when all four exist.
pub open spec fn quartet_of(s: Seq<InstanceView>) -> Option<Seq<InstanceView>> {
    match (
        first_in_slot(s, 0, 0, 0),
        first_in_slot(s, 0, 1, 0),
        first_in_slot(s, 1, 0, 0),
        first_in_slot(s, 1, 1, 0),
    ) {
        (Some(a), Some(b), Some(c), Some(d)) => Some(seq![s[a], s[b], s[c], s[d]]),
        _ => None,
    }
}

pub proof fn lemma_first_in_slot(s: Seq<InstanceView>, v: u8, l: u8, i: int)
    requires
        0 <= i,
    ensures
        match first_in_slot(s, v, l, i) {
            Some(k) => i <= k < s.len() && view_rank(s[k]) == v && laterality_rank(s[k]) == l
                && forall|j: int| i <= j < k ==> !(view_rank(#[trigger] s[j]) == v
                && laterality_rank(s[j]) == l),
            None => forall|j: int| i <= j < s.len() ==> !(view_rank(#[trigger] s[j]) == v
                && laterality_rank(s[j]) == l),
        },
    decreases s.len() - i,
{
    if i < s.len() && !(view_rank(s[i]) == v && laterality_rank(s[i]) == l) {
        lemma_first_in_slot(s, v, l, i + 1);
    }
}

fn first_in_slot_exec(s: &Vec<MetadataInstance>, v: u8, l: u8) -> (r: Option<usize>)
    ensures
        match r {
            Some(k) => first_in_slot(instances_view(s@), v, l, 0) == Some(k as int),
            None => first_in_slot(instances_view(s@), v, l, 0) is None,
        },
{
    let ghost sv = instances_view(s@);
    let mut i: usize = 0;
    while i < s.len()
        invariant
            i <= s@.len(),
            sv == instances_view(s@),
            first_in_slot(sv, v, l, 0) == first_in_slot(sv, v, l, i as int),
        decreases s@.len() - i,
    {
        if view_rank_of(&s[i]) == v && laterality_rank_of(&s[i]) == l {
            return Some(i);
        }
        i = i + 1;
    }
    None
}

/// The first instance of each of the four grid slots, in slot order.
pub fn pick_mammo_quartet(instances: &Vec<MetadataInstance>) -> (r: Option<Vec<MetadataInstance>>)
    ensures
        match r {
            Some(q) => quartet_of(instances_view(instances@)) == Some(instances_view(q@)),
            None => quartet_of(instances_view(instances@)) is None,
        },
{
    let a = first_in_slot_exec(instances, 0, 0);
    let b = first_in_slot_exec(instances, 0, 1);
    let c = first_in_slot_exec(instances, 1, 0);
    let d = first_in_slot_exec(instances, 1, 1);
    match (a, b, c, d) {
        (Some(a), Some(b), Some(c), Some(d)) => {
            proof {
                lemma_first_in_slot(instances_view(instances@), 0, 0, 0);
                lemma_first_in_slot(instances_view(instances@), 0, 1, 0);
                lemma_first_in_slot(instances_view(instances@), 1, 0, 0);
                lemma_first_in_slot(instances_view(instances@), 1, 1, 0);
            }
            let mut q: Vec<MetadataInstance> = Vec::new();
            q.push(instances[a].duplicate());
            q.push(instances[b].duplicate());
            q.push(instances[c].duplicate());
            q.push(instances[d].duplicate());
            assert(instances_view(q@) =~= seq![
                instances_view(instances@)[a as int],
                instances_view(instances@)[b as int],
                instances_view(instances@)[c as int],
                instances_view(instances@)[d as int],
            ]);
            Some(q)
        },
        _ => None,
    }
}

/// Some instance of `s` lies in grid slot (`v`, `l`).
pub open spec fn slot_filled(s: Seq<InstanceView>, v: u8, l: u8) -> bool {
    exists|i: int| 0 <= i < s.len() && view_rank(#[trigger] s[i]) == v && laterality_rank(s[i]) == l
}

/// Every grid slot holds some instance of `s`.
pub open spec fn has_quartet(s: Seq<InstanceView>) -> bool {
    slot_filled(s, 0, 0) && slot_filled(s, 0, 1) && slot_filled(s, 1, 0) && slot_filled(s, 1, 1)
}

proof fn lemma_slot_filled_same_items(a: Seq<InstanceView>, b: Seq<InstanceView>, v: u8, l: u8)
    requires
        a.to_multiset() == b.to_multiset(),
        slot_filled(a, v, l),
    ensures
        slot_filled(b, v, l),
        first_in_slot(b, v, l, 0) is Some,
{
    a.to_multiset_ensures();
    b.to_multiset_ensures();
    let i = choose|i: int| 0 <= i < a.len() && view_rank(#[trigger] a[i]) == v && laterality_rank(a[i]) == l;
    assert(a.contains(a[i]));
    assert(a.to_multiset().count(a[i]) > 0);
    assert(b.to_multiset().count(a[i]) > 0);
    assert(b.contains(a[i]));
    let j = choose|j: int| 0 <= j < b.len() && b[j] == a[i];
    assert(view_rank(b[j]) == v && laterality_rank(b[j]) == l);
    lemma_first_in_slot(b, v, l, 0);
}

/// What `reduce_series_instances` returns for `input` (`Err` carries no value here):
/// one instance passes through; four come back sorted by the selection key;
/// more than four give, for each grid slot, an instance of that slot with the
/// least key there, when every slot is filled; anything else fails.
pub open spec fn reduce_outcome(input: Seq<InstanceView>, r: Result<Seq<InstanceView>, ()>) -> bool {
    if input.len() == 1 {
        r == Ok::<Seq<InstanceView>, ()>(input)
    } else if input.len() == 4 {
        r matches Ok(v) && v.len() == 4 && v.to_multiset() == input.to_multiset() && sorted_by_key(v)
    } else if input.len() > 4 && has_quartet(input) {
        r matches Ok(v) && v.len() == 4 && forall|k: int|
            0 <= k < 4 ==> {
                &&& input.contains(#[trigger] v[k])
                &&& view_rank(v[k]) == k / 2 && laterality_rank(v[k]) == k % 2
                &&& forall|j: int|
                    0 <= j < input.len() && view_rank(#[trigger] input[j]) == k / 2
                        && laterality_rank(input[j]) == k % 2 ==> key_le(v[k], input[j])
            }
    } else {
        r is Err
    }
}

pub open spec fn result_view(r: Result<Vec<MetadataInstance>, String>) -> Result<Seq<InstanceView>, ()> {
    match r {
        Ok(v) => Ok(instances_view(v@)),
        Err(_) => Err(()),
    }
}

proof fn lemma_quartet_of_sorted(s: Seq<InstanceView>, orig: Seq<InstanceView>)
    requires
        sorted_by_key(s),
        s.to_multiset() == orig.to_multiset(),
        has_quartet(orig),
    ensures
        quartet_of(s) matches Some(q) && q.len() == 4 && forall|k: int|
            0 <= k < 4 ==> {
                &&& orig.contains(#[trigger] q[k])
                &&& view_rank(q[k]) == k / 2 && laterality_rank(q[k]) == k % 2
                &&& forall|j: int|
                    0 <= j < orig.len() && view_rank(#[trigger] orig[j]) == k / 2
                        && laterality_rank(orig[j]) == k % 2 ==> key_le(q[k], orig[j])
            },
{
    lemma_slot_filled_same_items(orig, s, 0, 0);
    lemma_slot_filled_same_items(orig, s, 0, 1);
    lemma_slot_filled_same_items(orig, s, 1, 0);
    lemma_slot_filled_same_items(orig, s, 1, 1);
    assert(first_in_slot(s, 0, 0, 0) is Some);
    assert(first_in_slot(s, 0, 1, 0) is Some);
    assert(first_in_slot(s, 1, 0, 0) is Some);
    assert(first_in_slot(s, 1, 1, 0) is Some);
    let q = quartet_of(s)->0;
    assert forall|k: int| 0 <= k < 4 implies {
        &&& orig.contains(#[trigger] q[k])
        &&& view_rank(q[k]) == k / 2 && laterality_rank(q[k]) == k % 2
        &&& forall|j: int|
            0 <= j < orig.len() && view_rank(#[trigger] orig[j]) == k / 2
                && laterality_rank(orig[j]) == k % 2 ==> key_le(q[k], orig[j])
    } by {
        let v = (k / 2) as u8;
        let l = (k % 2) as u8;
        lemma_first_in_slot(s, v, l, 0);
        let f = first_in_slot(s, v, l, 0)->0;
        assert(q[k] == s[f]);
        assert(s.contains(s[f]));
        assert(s.to_multiset().count(s[f]) > 0);
        assert(orig.to_multiset().count(s[f]) > 0);
        assert forall|j: int|
            0 <= j < orig.len() && view_rank(#[trigger] orig[j]) == k / 2
                && laterality_rank(orig[j]) == k % 2 implies key_le(q[k], orig[j]) by {
            assert(orig.contains(orig[j]));
            assert(orig.to_multiset().count(orig[j]) > 0);
            assert(s.to_multiset().count(orig[j]) > 0);
            assert(s.contains(orig[j]));
            let m = choose|m: int| 0 <= m < s.len() && s[m] == orig[j];
            if m < f {
                assert(false);
            } else if m > f {
                assert(key_le(s[f], s[m]));
            } else {
                lemma_key_le_total(s[f], s[f]);
            }
        }
    }
}

/// Resolves one series to the instances to open: a single instance as is,
/// four sorted by the selection key, or from more than four the first of
/// each grid slot in key order. Anything else fails, naming the count.
pub fn reduce_series_instances(instances: Vec<MetadataInstance>) -> (r: Result<Vec<MetadataInstance>, String>)
    ensures
        reduce_outcome(instances_view(instances@), result_view(r)),
        r matches Err(m) ==> m@ == series_count_error(instances@.len()),
{
    let ghost orig = instances_view(instances@);
    let mut instances = instances;
    if instances.len() == 1 {
        return Ok(instances);
    }
    sort_instances_for_mammo(&mut instances);
    if instances.len() == 4 {
        return Ok(instances);
    }
    if instances.len() > 4 {
        match pick_mammo_quartet(&instances) {
            Some(q) => {
                proof {
                    let s = instances_view(instances@);
                    lemma_first_in_slot(s, 0, 0, 0);
                    lemma_first_in_slot(s, 0, 1, 0);
                    lemma_first_in_slot(s, 1, 0, 0);
                    lemma_first_in_slot(s, 1, 1, 0);
                    lemma_slot_filled_same_items(s, orig, 0, 0);
                    lemma_slot_filled_same_items(s, orig, 0, 1);
                    lemma_slot_filled_same_items(s, orig, 1, 0);
                    lemma_slot_filled_same_items(s, orig, 1, 1);
                    lemma_quartet_of_sorted(instances_view(instances@), orig);
                }
                return Ok(q);
            },
            None => {
                proof {
                    if has_quartet(orig) {
                        lemma_quartet_of_sorted(instances_view(instances@), orig);
                    }
                }
            },
        }
    }
    let mut msg = String::from_str("Series has ");
    msg.append(crate::text::decimal_text(instances.len() as u64).as_str());
    msg.append(" instances; only 1 image or a mammography quartet of 4 can be opened.");
    Err(msg)
}

/// The error of a series that resolves to no supported set: it names the
/// number of instances.
pub open spec fn series_count_error(n: nat) -> Seq<char> {
    "Series has "@ + crate::text::decimal(n) + " instances; only 1 image or a mammography quartet of 4 can be opened."@
}

/// Four instances that fill the four grid slots, given in any order, come
/// back ordered R-CC, L-CC, R-MLO, L-MLO.
pub proof fn lemma_quartet_in_canonical_order(
    input: Seq<InstanceView>,
    r: Result<Seq<InstanceView>, ()>,
)
    requires
        input.len() == 4,
        has_quartet(input),
        reduce_outcome(input, r),
    ensures
        r matches Ok(v) && v.len() == 4 && forall|k: int|
            0 <= k < 4 ==> view_rank(#[trigger] v[k]) == k / 2 && laterality_rank(v[k]) == k % 2,
{
    let v = r->Ok_0;
    assert forall|a: u8, b: u8| a <= 1 && b <= 1 && slot_filled(input, a, b) implies #[trigger] slot_filled(v, a, b) by {
        lemma_slot_filled_same_items(input, v, a, b);
    }
    let m0 = choose|i: int| 0 <= i < v.len() && view_rank(#[trigger] v[i]) == 0 && laterality_rank(v[i]) == 0;
    let m1 = choose|i: int| 0 <= i < v.len() && view_rank(#[trigger] v[i]) == 0 && laterality_rank(v[i]) == 1;
    let m2 = choose|i: int| 0 <= i < v.len() && view_rank(#[trigger] v[i]) == 1 && laterality_rank(v[i]) == 0;
    let m3 = choose|i: int| 0 <= i < v.len() && view_rank(#[trigger] v[i]) == 1 && laterality_rank(v[i]) == 1;
    assert(slot_filled(v, 0, 0));
    assert(slot_filled(v, 0, 1));
    assert(slot_filled(v, 1, 0));
    assert(slot_filled(v, 1, 1));
    assert(m0 < m1) by {
        if m1 < m0 {
            assert(key_le(v[m1], v[m0]));
        }
    }
    assert(m1 < m2) by {
        if m2 < m1 {
            assert(key_le(v[m2], v[m1]));
        }
    }
    assert(m2 < m3) by {
        if m3 < m2 {
            assert(key_le(v[m3], v[m2]));
        }
    }
    assert(m0 == 0 && m1 == 1 && m2 == 2 && m3 == 3);
}

/// A series of more than four instances without an L-MLO instance fails:
/// no partial quartet is ever returned.
pub proof fn lemma_missing_slot_fails(input: Seq<InstanceView>, r: Result<Seq<InstanceView>, ()>)
    requires
        input.len() > 4,
        !slot_filled(input, 1, 1),
        reduce_outcome(input, r),
    ensures
        r is Err,
{
}

pub open spec fn unknown_series() -> Seq<char> {
    seq!['U', 'N', 'K', 'N', 'O', 'W', 'N', '_', 'S', 'E', 'R', 'I', 'E', 'S']
}

/// The series an instance is grouped under (`UNKNOWN_SERIES` when it names none).
pub open spec fn series_key(m: InstanceView) -> Seq<char> {
    match m.series_uid {
        Some(s) => s,
        None => unknown_series(),
    }
}

/// The instances of `s` grouped under `key`, in order.
pub open spec fn members(s: Seq<InstanceView>, key: Seq<char>) -> Seq<InstanceView>
    decreases s.len(),
{
    if s.len() == 0 {
        seq![]
    } else if series_key(s.last()) == key {
        members(s.drop_last(), key).push(s.last())
    } else {
        members(s.drop_last(), key)
    }
}

/// The instances of `s` whose series UID is `uid`, in order.
pub open spec fn in_series(s: Seq<InstanceView>, uid: Seq<char>) -> Seq<InstanceView>
    decreases s.len(),
{
    if s.len() == 0 {
        seq![]
    } else if s.last().series_uid == Some(uid) {
        in_series(s.drop_last(), uid).push(s.last())
    } else {
        in_series(s.drop_last(), uid)
    }
}

pub open spec fn chars_lt(a: Seq<char>, b: Seq<char>) -> bool {
    chars_le(a, b) && a != b
}

pub proof fn lemma_chars_le_refl(a: Seq<char>)
    ensures
        chars_le(a, a),
    decreases a.len(),
{
    if a.len() > 0 {
        lemma_chars_le_refl(a.drop_first());
    }
}

pub proof fn lemma_chars_le_antisym(a: Seq<char>, b: Seq<char>)
    requires
        chars_le(a, b),
        chars_le(b, a),
    ensures
        a == b,
    decreases a.len(),
{
    if a.len() > 0 && b.len() > 0 {
        lemma_chars_le_antisym(a.drop_first(), b.drop_first());
        assert(a =~= seq![a[0]] + a.drop_first());
        assert(b =~= seq![b[0]] + b.drop_first());
    } else {
        assert(a.len() == 0 && b.len() == 0);
        assert(a =~= b);
    }
}

/// Some instance of `s` is grouped under `key`.
pub open spec fn key_present(s: Seq<InstanceView>, key: Seq<char>) -> bool {
    exists|m: int| 0 <= m < s.len() && series_key(#[trigger] s[m]) == key
}

/// The distinct series keys of `s`, in ascending order.
pub open spec fn is_key_list(keys: Seq<Seq<char>>, s: Seq<InstanceView>) -> bool {
    &&& forall|i: int, j: int| 0 <= i < j < keys.len() ==> chars_lt(#[trigger] keys[i], #[trigger] keys[j])
    &&& forall|i: int| 0 <= i < keys.len() ==> #[trigger] key_present(s, keys[i])
    &&& forall|m: int| 0 <= m < s.len() ==> keys.contains(series_key(#[trigger] s[m]))
}

fn series_key_chars(m: &MetadataInstance) -> (r: Vec<char>)
    ensures
        r@ == series_key(m@),
{
    match &m.series_uid {
        Some(s) => chars_of(s.as_str()),
        None => {
            let u = ['U', 'N', 'K', 'N', 'O', 'W', 'N', '_', 'S', 'E', 'R', 'I', 'E', 'S'];
            assert(u@ =~= unknown_series());
            crate::text::slice_vec(&u, 0, 14)
        },
    }
}

/// The distinct series keys of the instances, ascending.
pub fn series_keys(instances: &Vec<MetadataInstance>) -> (r: Vec<Vec<char>>)
    ensures
        is_key_list(r@.map_values(|k: Vec<char>| k@), instances_view(instances@)),
{
    let ghost s = instances_view(instances@);
    let mut keys: Vec<Vec<char>> = Vec::new();
    let mut k: usize = 0;
    while k < instances.len()
        invariant
            k <= instances@.len(),
            s == instances_view(instances@),
            is_key_list(keys@.map_values(|x: Vec<char>| x@), s.take(k as int)),
        decreases instances@.len() - k,
    {
        let key = series_key_chars(&instances[k]);
        let ghost kv = keys@.map_values(|x: Vec<char>| x@);
        let mut p: usize = 0;
        while p < keys.len() && !chars_le_exec(&key, &keys[p])
            invariant
                p <= keys@.len(),
                kv == keys@.map_values(|x: Vec<char>| x@),
                forall|j: int| 0 <= j < p ==> !chars_le(key@, #[trigger] kv[j]),
            decreases keys@.len() - p,
        {
            p = p + 1;
        }
        let present = p < keys.len() && crate::text::eq_chars(&key, &keys[p]);
        proof {
            assert(s.take(k + 1).drop_last() =~= s.take(k as int));
            assert(s.take(k + 1)[k as int] == s[k as int]);
        }
        if !present {
            keys.insert(p, key);
            proof {
                let nv = keys@.map_values(|x: Vec<char>| x@);
                assert(nv =~= kv.insert(p as int, key@));
                assert forall|i: int, j: int| 0 <= i < j < nv.len() implies chars_lt(#[trigger] nv[i], #[trigger] nv[j]) by {
                    if j < p {
                        assert(chars_lt(kv[i], kv[j]));
                    } else if i < p && j == p {
                        lemma_chars_le_total(key@, kv[i]);
                        lemma_chars_le_refl(key@);
                    } else if i < p {
                        assert(chars_lt(kv[i], kv[j - 1]));
                    } else if i == p {
                        assert(chars_le(key@, kv[p as int]));
                        if j - 1 > p {
                            assert(chars_lt(kv[p as int], kv[j - 1]));
                            lemma_chars_le_trans(key@, kv[p as int], kv[j - 1]);
                            if key@ == kv[j - 1] {
                                lemma_chars_le_antisym(key@, kv[p as int]);
                            }
                        }
                    } else {
                        assert(chars_lt(kv[i - 1], kv[j - 1]));
                    }
                }
                let t = s.take(k + 1);
                assert forall|i: int| 0 <= i < nv.len() implies #[trigger] key_present(t, nv[i]) by {
                    if i < p {
                        assert(key_present(s.take(k as int), kv[i]));
                        let m = choose|m: int| 0 <= m < s.take(k as int).len() && series_key(#[trigger] s.take(k as int)[m]) == kv[i];
                        assert(t[m] == s.take(k as int)[m]);
                    } else if i == p {
                        assert(t[k as int] == s[k as int]);
                    } else {
                        assert(key_present(s.take(k as int), kv[i - 1]));
                        let m = choose|m: int| 0 <= m < s.take(k as int).len() && series_key(#[trigger] s.take(k as int)[m]) == kv[i - 1];
                        assert(t[m] == s.take(k as int)[m]);
                    }
                }
                assert forall|m: int| 0 <= m < t.len() implies nv.contains(series_key(#[trigger] t[m])) by {
                    if m < k {
                        assert(t[m] == s.take(k as int)[m]);
                        assert(kv.contains(series_key(s.take(k as int)[m])));
                        let i = choose|i: int| 0 <= i < kv.len() && kv[i] == series_key(s.take(k as int)[m]);
                        if i < p {
                            assert(nv[i] == kv[i]);
                        } else {
                            assert(nv[i + 1] == kv[i]);
                        }
                    } else {
                        assert(nv[p as int] == key@);
                    }
                }
            }
        } else {
            proof {
                let t = s.take(k + 1);
                assert forall|i: int| 0 <= i < kv.len() implies #[trigger] key_present(t, kv[i]) by {
                    assert(key_present(s.take(k as int), kv[i]));
                    let m = choose|m: int| 0 <= m < s.take(k as int).len() && series_key(#[trigger] s.take(k as int)[m]) == kv[i];
                    assert(t[m] == s.take(k as int)[m]);
                }
                assert forall|m: int| 0 <= m < t.len() implies kv.contains(series_key(#[trigger] t[m])) by {
                    if m < k {
                        assert(t[m] == s.take(k as int)[m]);
                    } else {
                        assert(kv[p as int] == key@);
                    }
                }
            }
        }
        k = k + 1;
    }
    assert(s.take(instances@.len() as int) =~= s);
    keys
}

/// The instances grouped under `key`, in order.
pub fn series_members(instances: &Vec<MetadataInstance>, key: &[char]) -> (r: Vec<MetadataInstance>)
    ensures
        instances_view(r@) == members(instances_view(instances@), key@),
{
    let ghost s = instances_view(instances@);
    let mut out: Vec<MetadataInstance> = Vec::new();
    let mut k: usize = 0;
    while k < instances.len()
        invariant
            k <= instances@.len(),
            s == instances_view(instances@),
            instances_view(out@) == members(s.take(k as int), key@),
        decreases instances@.len() - k,
    {
        proof {
            assert(s.take(k + 1).drop_last() =~= s.take(k as int));
        }
        let sk = series_key_chars(&instances[k]);
        if crate::text::eq_chars(&sk, key) {
            out.push(instances[k].duplicate());
            assert(instances_view(out@) =~= members(s.take(k as int), key@).push(s[k as int]));
        }
        k = k + 1;
    }
    assert(s.take(instances@.len() as int) =~= s);
    out
}

fn in_series_exec(instances: &Vec<MetadataInstance>, uid: &str) -> (r: Vec<MetadataInstance>)
    ensures
        instances_view(r@) == in_series(instances_view(instances@), uid@),
{
    let ghost s = instances_view(instances@);
    let u = chars_of(uid);
    let mut out: Vec<MetadataInstance> = Vec::new();
    let mut k: usize = 0;
    while k < instances.len()
        invariant
            k <= instances@.len(),
            s == instances_view(instances@),
            u@ == uid@,
            instances_view(out@) == in_series(s.take(k as int), uid@),
        decreases instances@.len() - k,
    {
        proof {
            assert(s.take(k + 1).drop_last() =~= s.take(k as int));
        }
        let same = match &instances[k].series_uid {
            Some(x) => {
                let xc = chars_of(x.as_str());
                crate::text::eq_chars(&xc, &u)
            },
            None => false,
        };
        if same {
            out.push(instances[k].duplicate());
            assert(instances_view(out@) =~= in_series(s.take(k as int), uid@).push(s[k as int]));
        }
        k = k + 1;
    }
    assert(s.take(instances@.len() as int) =~= s);
    out
}

/// What `select_instances_for_viewer` returns. With a requested series:
/// its instances, reduced, and an error when it has none. Without: the
/// only series reduced, or with several series the ascending-first series
/// of exactly four instances reduced; an error when there is none of those.
pub open spec fn select_outcome(
    input: Seq<InstanceView>,
    requested: Option<Seq<char>>,
    r: Result<Seq<InstanceView>, ()>,
) -> bool {
    match requested {
        Some(uid) => {
            let f = in_series(input, uid);
            if f.len() == 0 {
                r is Err
            } else {
                reduce_outcome(f, r)
            }
        },
        None => if input.len() == 0 {
            r is Err
        } else if forall|m: int| 0 <= m < input.len() ==> series_key(#[trigger] input[m]) == series_key(input[0]) {
            reduce_outcome(input, r)
        } else if exists|m: int| 0 <= m < input.len() && #[trigger] members(input, series_key(input[m])).len() == 4 {
            exists|m: int|
                0 <= m < input.len() && #[trigger] members(input, series_key(input[m])).len() == 4
                    && (forall|n: int|
                    0 <= n < input.len() && #[trigger] members(input, series_key(input[n])).len() == 4
                        ==> chars_le(series_key(input[m]), series_key(input[n])))
                    && reduce_outcome(members(input, series_key(input[m])), r)
        } else {
            r is Err
        },
    }
}

proof fn lemma_members_all(s: Seq<InstanceView>, key: Seq<char>)
    requires
        forall|m: int| 0 <= m < s.len() ==> series_key(#[trigger] s[m]) == key,
    ensures
        members(s, key) == s,
    decreases s.len(),
{
    if s.len() > 0 {
        lemma_members_all(s.drop_last(), key);
        assert(s.drop_last().push(s.last()) =~= s);
    }
}

fn err_text(msg: &str) -> (r: String) {
    String::from_str(msg)
}

/// Chooses the instances to open from a study's metadata (see `select_outcome`).
pub fn select_instances_for_viewer(
    instances: Vec<MetadataInstance>,
    requested_series_uid: Option<&str>,
) -> (r: Result<Vec<MetadataInstance>, String>)
    ensures
        select_outcome(
            instances_view(instances@),
            match requested_series_uid {
                Some(u) => Some(u@),
                None => None,
            },
            result_view(r),
        ),
{
    let ghost s = instances_view(instances@);
    match requested_series_uid {
        Some(uid) => {
            let filtered = in_series_exec(&instances, uid);
            if filtered.len() == 0 {
                return Err(err_text("Requested series UID was not found in study metadata"));
            }
            return reduce_series_instances(filtered);
        },
        None => {},
    }
    let keys = series_keys(&instances);
    let ghost kv = keys@.map_values(|k: Vec<char>| k@);
    if keys.len() == 0 {
        proof {
            if s.len() > 0 {
                assert(kv.contains(series_key(s[0])));
            }
        }
        return Err(err_text("Study metadata contains no series"));
    }
    if keys.len() == 1 {
        proof {
            assert(key_present(s, kv[0]));
            assert forall|m: int| 0 <= m < s.len() implies series_key(#[trigger] s[m]) == series_key(s[0]) by {
                assert(kv.contains(series_key(s[m])));
                assert(kv.contains(series_key(s[0])));
            }
            lemma_members_all(s, series_key(s[0]));
            assert(kv.contains(series_key(s[0])));
        }
        let only = series_members(&instances, &keys[0]);
        proof {
            assert(kv[0] == series_key(s[0]));
        }
        return reduce_series_instances(only);
    }
    proof {
        assert(key_present(s, kv[0]));
        assert(key_present(s, kv[1]));
        let a = choose|m: int| 0 <= m < s.len() && series_key(#[trigger] s[m]) == kv[0];
        let b = choose|m: int| 0 <= m < s.len() && series_key(#[trigger] s[m]) == kv[1];
        assert(chars_lt(kv[0], kv[1]));
        assert(series_key(s[a]) != series_key(s[b]));
        assert(!(forall|m: int| 0 <= m < s.len() ==> series_key(#[trigger] s[m]) == series_key(s[0])));
    }
    let mut g: usize = 0;
    while g < keys.len()
        invariant
            g <= keys@.len(),
            kv == keys@.map_values(|k: Vec<char>| k@),
            s == instances_view(instances@),
            is_key_list(kv, s),
            s.len() > 0,
            requested_series_uid is None,
            !(forall|m: int| 0 <= m < s.len() ==> series_key(#[trigger] s[m]) == series_key(s[0])),
            forall|j: int| 0 <= j < g ==> members(s, #[trigger] kv[j]).len() != 4,
        decreases keys@.len() - g,
    {
        let group = series_members(&instances, &keys[g]);
        if group.len() == 4 {
            let r = reduce_series_instances(group);
            proof {
                assert(key_present(s, kv[g as int]));
                let m = choose|m: int| 0 <= m < s.len() && series_key(#[trigger] s[m]) == kv[g as int];
                assert forall|n: int|
                    0 <= n < s.len() && #[trigger] members(s, series_key(s[n])).len() == 4
                        implies chars_le(series_key(s[m]), series_key(s[n])) by {
                    assert(kv.contains(series_key(s[n])));
                    let j = choose|j: int| 0 <= j < kv.len() && kv[j] == series_key(s[n]);
                    if j < g {
                        assert(members(s, kv[j]).len() != 4);
                    } else if j > g {
                        assert(chars_lt(kv[g as int], kv[j]));
                    } else {
                        lemma_chars_le_refl(kv[j]);
                    }
                }
                assert(members(s, series_key(s[m])).len() == 4);
                assert(reduce_outcome(members(s, series_key(s[m])), result_view(r)));
            }
            return r;
        }
        g = g + 1;
    }
    proof {
        assert forall|m: int| 0 <= m < s.len() implies #[trigger] members(s, series_key(s[m])).len() != 4 by {
            assert(kv.contains(series_key(s[m])));
            let j = choose|j: int| 0 <= j < kv.len() && kv[j] == series_key(s[m]);
            assert(members(s, kv[j]).len() != 4);
        }
    }
    Err(err_text("Study contains multiple series. Add the series UID to the launch URL for deterministic loading."))
}

} // verus!

//! Mammography view and laterality classification, and the canonical
//! placement of images in the 2x2 grid (R-CC, L-CC, R-MLO, L-MLO).
use vstd::prelude::*;
use vstd::string::StringExecFns;

use crate::text::{
    chars_of, contains, contains_seq, remove_all, remove_char, starts_with_seq, to_upper, trim,
    trim_seq, upper_seq,
};

verus! {

pub open spec fn str_opt_view(o: Option<&str>) -> Option<Seq<char>> {
    match o {
        Some(s) => Some(s@),
        None => None,
    }
}

/// A value trimmed, upper-cased (ASCII) and stripped of spaces; nothing gives the empty token.
pub open spec fn norm_token(o: Option<Seq<char>>) -> Seq<char> {
    let s = match o {
        Some(s) => s,
        None => seq![],
    };
    remove_char(upper_seq(trim_seq(s)), ' ')
}

/// Laterality class of a value: 0 for right (`R...` or containing `RIGHT`),
/// 1 for left (`L...` or containing `LEFT`), 2 otherwise.
pub open spec fn laterality_class(o: Option<Seq<char>>) -> u8 {
    let t = norm_token(o);
    if starts_with_seq(t, seq!['R']) || contains_seq(t, seq!['R', 'I', 'G', 'H', 'T']) {
        0
    } else if starts_with_seq(t, seq!['L']) || contains_seq(t, seq!['L', 'E', 'F', 'T']) {
        1
    } else {
        2
    }
}

/// View class of a value for the grid: 0 when the token is exactly `CC`,
/// 1 when exactly `MLO`, 2 otherwise.
pub open spec fn exact_view_class(o: Option<Seq<char>>) -> u8 {
    let t = norm_token(o);
    if t == seq!['M', 'L', 'O'] {
        1
    } else if t == seq!['C', 'C'] {
        0
    } else {
        2
    }
}

/// View class of a value for remote selection: 1 when the token contains
/// `MLO`, else 0 when it contains `CC`, else 2.
pub open spec fn loose_view_class(o: Option<Seq<char>>) -> u8 {
    let t = norm_token(o);
    if contains_seq(t, seq!['M', 'L', 'O']) {
        1
    } else if contains_seq(t, seq!['C', 'C']) {
        0
    } else {
        2
    }
}

pub fn norm_token_chars(value: Option<&[char]>) -> (r: Vec<char>)
    ensures
        r@ == norm_token(match value {
            Some(s) => Some(s@),
            None => None,
        }),
{
    let empty: Vec<char> = Vec::new();
    let s: &[char] = match value {
        Some(s) => s,
        None => empty.as_slice(),
    };
    let t = trim(s);
    let u = to_upper(&t);
    remove_all(&u, ' ')
}

/// Normalizes an orientation value (see `norm_token`).
pub fn normalize_token(value: Option<&str>) -> (r: String)
    ensures
        r@ == norm_token(str_opt_view(value)),
{
    let v = match value {
        Some(s) => Some(chars_of(s)),
        None => None,
    };
    let r = match &v {
        Some(c) => norm_token_chars(Some(c.as_slice())),
        None => norm_token_chars(None),
    };
    crate::text::string_of(&r)
}

pub fn laterality_class_chars(value: Option<&[char]>) -> (r: u8)
    ensures
        r == laterality_class(match value {
            Some(s) => Some(s@),
            None => None,
        }),
{
    let t = norm_token_chars(value);
    let right = ['R', 'I', 'G', 'H', 'T'];
    let left = ['L', 'E', 'F', 'T'];
    assert(right@ =~= seq!['R', 'I', 'G', 'H', 'T']);
    assert(left@ =~= seq!['L', 'E', 'F', 'T']);
    proof {
        if t@.len() > 0 {
            assert(starts_with_seq(t@, seq!['R']) <==> t@[0] == 'R') by {
                assert(t@.take(1)[0] == t@[0]);
                assert(seq!['R'][0] == 'R');
                if t@[0] == 'R' {
                    assert(t@.take(1) =~= seq!['R']);
                }
            }
            assert(starts_with_seq(t@, seq!['L']) <==> t@[0] == 'L') by {
                assert(t@.take(1)[0] == t@[0]);
                assert(seq!['L'][0] == 'L');
                if t@[0] == 'L' {
                    assert(t@.take(1) =~= seq!['L']);
                }
            }
        }
    }
    if (t.len() > 0 && t[0] == 'R') || contains(&t, &right) {
        0
    } else if (t.len() > 0 && t[0] == 'L') || contains(&t, &left) {
        1
    } else {
        2
    }
}

pub fn exact_view_class_chars(value: Option<&[char]>) -> (r: u8)
    ensures
        r == exact_view_class(match value {
            Some(s) => Some(s@),
            None => None,
        }),
{
    let t = norm_token_chars(value);
    let mlo = ['M', 'L', 'O'];
    let cc = ['C', 'C'];
    assert(mlo@ =~= seq!['M', 'L', 'O']);
    assert(cc@ =~= seq!['C', 'C']);
    if crate::text::eq_chars(&t, &mlo) {
        1
    } else if crate::text::eq_chars(&t, &cc) {
        0
    } else {
        2
    }
}

pub fn loose_view_class_chars(value: Option<&[char]>) -> (r: u8)
    ensures
        r == loose_view_class(match value {
            Some(s) => Some(s@),
            None => None,
        }),
{
    let t = norm_token_chars(value);
    let mlo = ['M', 'L', 'O'];
    let cc = ['C', 'C'];
    assert(mlo@ =~= seq!['M', 'L', 'O']);
    assert(cc@ =~= seq!['C', 'C']);
    if contains(&t, &mlo) {
        1
    } else if contains(&t, &cc) {
        0
    } else {
        2
    }
}

fn opt_chars(value: Option<&str>) -> (r: Option<Vec<char>>)
    ensures
        match r {
            Some(v) => value matches Some(s) && v@ == s@,
            None => value is None,
        },
{
    match value {
        Some(s) => Some(chars_of(s)),
        None => None,
    }
}

/// `Some("R")`, `Some("L")` or `None`, as `laterality_class` decides.
pub fn classify_laterality(value: Option<&str>) -> (r: Option<&'static str>)
    ensures
        laterality_class(str_opt_view(value)) == 0 ==> r == Some("R"),
        laterality_class(str_opt_view(value)) == 1 ==> r == Some("L"),
        laterality_class(str_opt_view(value)) == 2 ==> r is None,
{
    let v = opt_chars(value);
    let c = match &v {
        Some(x) => laterality_class_chars(Some(x.as_slice())),
        None => laterality_class_chars(None),
    };
    if c == 0 {
        Some("R")
    } else if c == 1 {
        Some("L")
    } else {
        None
    }
}

/// `Some("CC")` or `Some("MLO")` when the token is exactly that, else `None`.
pub fn classify_view(value: Option<&str>) -> (r: Option<&'static str>)
    ensures
        exact_view_class(str_opt_view(value)) == 0 ==> r == Some("CC"),
        exact_view_class(str_opt_view(value)) == 1 ==> r == Some("MLO"),
        exact_view_class(str_opt_view(value)) == 2 ==> r is None,
{
    let v = opt_chars(value);
    let c = match &v {
        Some(x) => exact_view_class_chars(Some(x.as_slice())),
        None => exact_view_class_chars(None),
    };
    if c == 0 {
        Some("CC")
    } else if c == 1 {
        Some("MLO")
    } else {
        None
    }
}

/// The slot order to try for an image of the given laterality: its own
/// column first.
pub fn preferred_slots_for_laterality(laterality: Option<&str>) -> (r: [usize; 4])
    ensures
        str_opt_view(laterality) == Some(seq!['R']) ==> r@ == seq![0usize, 2, 1, 3],
        str_opt_view(laterality) == Some(seq!['L']) ==> r@ == seq![1usize, 3, 0, 2],
        str_opt_view(laterality) != Some(seq!['R']) && str_opt_view(laterality) != Some(seq!['L'])
            ==> r@ == seq![0usize, 1, 2, 3],
{
    let code: u8 = match laterality {
        Some(s) => {
            let c = chars_of(s);
            proof {
                if c@.len() == 1 {
                    assert(c@ =~= seq![c@[0]]);
                }
            }
            if c.len() == 1 && c[0] == 'R' {
                0
            } else if c.len() == 1 && c[0] == 'L' {
                1
            } else {
                2
            }
        },
        None => 2,
    };
    let r = if code == 0 {
        [0usize, 2, 1, 3]
    } else if code == 1 {
        [1usize, 3, 0, 2]
    } else {
        [0usize, 1, 2, 3]
    };
    assert(code == 0 ==> r@ =~= seq![0usize, 2, 1, 3]);
    assert(code == 1 ==> r@ =~= seq![1usize, 3, 0, 2]);
    assert(code == 2 ==> r@ =~= seq![0usize, 1, 2, 3]);
    r
}

/// The orientation tags of one image, as far as grid placement needs them.
#[derive(Debug, Clone, PartialEq, Eq)]
pub struct MammoTags {
    pub view_position: Option<String>,
    pub laterality: Option<String>,
}

pub open spec fn opt_text(o: Option<String>) -> Option<Seq<char>> {
    match o {
        Some(s) => Some(s@),
        None => None,
    }
}

/// The grid slot that the tags name exactly, if any.
pub open spec fn exact_slot(t: MammoTags) -> Option<int> {
    let v = exact_view_class(opt_text(t.view_position));
    let l = laterality_class(opt_text(t.laterality));
    if v <= 1 && l <= 1 {
        Some(2 * v + l)
    } else {
        None
    }
}

/// The slots to try for an image of this laterality, own column first.
pub open spec fn slot_preference(t: MammoTags) -> Seq<int> {
    let l = laterality_class(opt_text(t.laterality));
    if l == 0 {
        seq![0, 2, 1, 3]
    } else if l == 1 {
        seq![1, 3, 0, 2]
    } else {
        seq![0, 1, 2, 3]
    }
}

/// The first slot of `order`, from position `k` on, that `usable` allows.
pub open spec fn first_usable(order: Seq<int>, usable: Seq<bool>, k: int) -> Option<int>
    decreases order.len() - k,
{
    if k < 0 || k >= order.len() {
        None
    } else if 0 <= order[k] < usable.len() && usable[order[k]] {
        Some(order[k])
    } else {
        first_usable(order, usable, k + 1)
    }
}

/// The slot for an image: the one its tags name when usable, else the
/// first usable slot in the order of its laterality.
pub open spec fn preferred_slot(t: MammoTags, usable: Seq<bool>) -> Option<int> {
    match exact_slot(t) {
        Some(s) => if s < usable.len() && usable[s] {
            Some(s)
        } else {
            first_usable(slot_preference(t), usable, 0)
        },
        None => first_usable(slot_preference(t), usable, 0),
    }
}

fn tags_chars(o: &Option<String>) -> (r: Option<Vec<char>>)
    ensures
        match r {
            Some(v) => opt_text(*o) == Some(v@),
            None => o is None,
        },
{
    match o {
        Some(s) => Some(chars_of(s.as_str())),
        None => None,
    }
}

/// The slot for an image among `usable.len()` slots, of which those marked
/// `true` are free (see `preferred_slot`).
pub fn preferred_mammo_slot(tags: &MammoTags, usable: &[bool]) -> (r: Option<usize>)
    ensures
        match r {
            Some(s) => preferred_slot(*tags, usable@) == Some(s as int),
            None => preferred_slot(*tags, usable@) is None,
        },
{
    let vc = tags_chars(&tags.view_position);
    let lc = tags_chars(&tags.laterality);
    let v = match &vc {
        Some(x) => exact_view_class_chars(Some(x.as_slice())),
        None => exact_view_class_chars(None),
    };
    let l = match &lc {
        Some(x) => laterality_class_chars(Some(x.as_slice())),
        None => laterality_class_chars(None),
    };
    let n = usable.len();
    if v <= 1 && l <= 1 {
        let s = (2 * v + l) as usize;
        if s < n && usable[s] {
            return Some(s);
        }
    }
    let order: [usize; 4] = if l == 0 {
        [0, 2, 1, 3]
    } else if l == 1 {
        [1, 3, 0, 2]
    } else {
        [0, 1, 2, 3]
    };
    let ghost pref = slot_preference(*tags);
    assert(order@.len() == 4);
    assert(forall|k: int| 0 <= k < 4 ==> order@[k] as int == pref[k]);
    let mut k: usize = 0;
    while k < 4
        invariant
            k <= 4,
            n == usable@.len(),
            pref == slot_preference(*tags),
            pref.len() == 4,
            forall|j: int| 0 <= j < 4 ==> order@[j] as int == pref[j],
            first_usable(pref, usable@, 0) == first_usable(pref, usable@, k as int),
            preferred_slot(*tags, usable@) == match exact_slot(*tags) {
                Some(s) => if s < usable@.len() && usable@[s] {
                    Some(s)
                } else {
                    first_usable(pref, usable@, 0)
                },
                None => first_usable(pref, usable@, 0),
            },
            exact_slot(*tags) matches Some(s) ==> !(s < usable@.len() && usable@[s]),
        decreases 4 - k,
    {
        let s = order[k];
        if s < n && usable[s] {
            return Some(s);
        }
        k = k + 1;
    }
    None
}

/// Grid placement of images: each goes to its preferred free slot in
/// turn (see `preferred_slot`); images left over fill the empty slots in
/// order. The result lists image indices slot by slot.
pub open spec fn placed(items: Seq<MammoTags>, k: int) -> (Seq<Option<int>>, Seq<int>)
    decreases k,
{
    if k <= 0 {
        (Seq::new(items.len(), |i: int| None::<int>), seq![])
    } else {
        let (ordered, fallback) = placed(items, k - 1);
        let usable = ordered.map_values(|o: Option<int>| o is None);
        match preferred_slot(items[k - 1], usable) {
            Some(s) => (ordered.update(s, Some(k - 1)), fallback),
            None => (ordered, fallback.push(k - 1)),
        }
    }
}

/// Empty slots filled, in order, from the left-over images.
pub open spec fn filled(ordered: Seq<Option<int>>, fallback: Seq<int>) -> Seq<int>
    decreases ordered.len(),
{
    if ordered.len() == 0 {
        seq![]
    } else {
        match ordered[0] {
            Some(x) => seq![x] + filled(ordered.drop_first(), fallback),
            None => if fallback.len() > 0 {
                seq![fallback[0]] + filled(ordered.drop_first(), fallback.drop_first())
            } else {
                filled(ordered.drop_first(), fallback)
            },
        }
    }
}

pub open spec fn mammo_order(items: Seq<MammoTags>) -> Seq<int> {
    let (ordered, fallback) = placed(items, items.len() as int);
    filled(ordered, fallback)
}

proof fn lemma_placed_len(items: Seq<MammoTags>, k: int)
    requires
        0 <= k <= items.len(),
    ensures
        placed(items, k).0.len() == items.len(),
    decreases k,
{
    if k > 0 {
        lemma_placed_len(items, k - 1);
        let (ordered, fallback) = placed(items, k - 1);
        let usable = ordered.map_values(|o: Option<int>| o is None);
        lemma_preferred_in_range(items[k - 1], usable);
    }
}

proof fn lemma_preferred_in_range(t: MammoTags, usable: Seq<bool>)
    ensures
        preferred_slot(t, usable) matches Some(s) ==> 0 <= s < usable.len() && usable[s],
{
    lemma_first_usable_in_range(slot_preference(t), usable, 0);
}

proof fn lemma_first_usable_in_range(order: Seq<int>, usable: Seq<bool>, k: int)
    ensures
        first_usable(order, usable, k) matches Some(s) ==> 0 <= s < usable.len() && usable[s],
    decreases order.len() - k,
{
    if 0 <= k < order.len() && !(0 <= order[k] < usable.len() && usable[order[k]]) {
        lemma_first_usable_in_range(order, usable, k + 1);
    }
}

pub open spec fn slots_view(v: Seq<Option<usize>>) -> Seq<Option<int>> {
    v.map_values(|o: Option<usize>| match o {
        Some(x) => Some(x as int),
        None => None::<int>,
    })
}

/// The order in which images fill the grid (see `mammo_order`).
pub fn order_mammo_indices(items: &[MammoTags]) -> (r: Vec<usize>)
    ensures
        r@.map_values(|x: usize| x as int) == mammo_order(items@),
{
    let n = items.len();
    let mut ordered: Vec<Option<usize>> = Vec::new();
    let mut j: usize = 0;
    while j < n
        invariant
            j <= n,
            ordered@.len() == j,
            forall|i: int| 0 <= i < j ==> ordered@[i] is None,
        decreases n - j,
    {
        ordered.push(None);
        j = j + 1;
    }
    let mut fallback: Vec<usize> = Vec::new();
    assert(slots_view(ordered@) =~= placed(items@, 0).0);
    let mut index: usize = 0;
    while index < n
        invariant
            index <= n,
            n == items@.len(),
            ordered@.len() == n,
            slots_view(ordered@) == placed(items@, index as int).0,
            fallback@.map_values(|x: usize| x as int) == placed(items@, index as int).1,
        decreases n - index,
    {
        let mut usable: Vec<bool> = Vec::new();
        let mut u: usize = 0;
        while u < n
            invariant
                u <= n,
                ordered@.len() == n,
                usable@.len() == u,
                forall|i: int| 0 <= i < u ==> usable@[i] == (ordered@[i] is None),
            decreases n - u,
        {
            usable.push(ordered[u].is_none());
            u = u + 1;
        }
        let ghost prev = placed(items@, index as int);
        proof {
            lemma_placed_len(items@, index as int);
            assert(usable@ =~= prev.0.map_values(|o: Option<int>| o is None));
            lemma_preferred_in_range(items@[index as int], usable@);
        }
        match preferred_mammo_slot(&items[index], &usable) {
            Some(s) => {
                ordered.set(s, Some(index));
                assert(slots_view(ordered@) =~= prev.0.update(s as int, Some(index as int)));
            },
            None => {
                fallback.push(index);
                assert(fallback@.map_values(|x: usize| x as int) =~= prev.1.push(index as int));
            },
        }
        index = index + 1;
    }
    let ghost final_ordered = slots_view(ordered@);
    let ghost final_fallback = fallback@.map_values(|x: usize| x as int);
    let mut out: Vec<usize> = Vec::new();
    let mut fb: usize = 0;
    let mut s: usize = 0;
    assert(final_ordered.skip(0) =~= final_ordered);
    assert(final_fallback.skip(0) =~= final_fallback);
    assert(out@.map_values(|x: usize| x as int) =~= Seq::<int>::empty());
    assert(Seq::<int>::empty() + filled(final_ordered, final_fallback) =~= filled(final_ordered, final_fallback));
    while s < n
        invariant
            s <= n,
            ordered@.len() == n,
            fb <= fallback@.len(),
            final_ordered == slots_view(ordered@),
            final_fallback == fallback@.map_values(|x: usize| x as int),
            out@.map_values(|x: usize| x as int) + filled(final_ordered.skip(s as int), final_fallback.skip(fb as int)) == filled(final_ordered, final_fallback),
        decreases n - s,
    {
        let ghost rest = final_ordered.skip(s as int);
        let ghost frest = final_fallback.skip(fb as int);
        proof {
            assert(rest.drop_first() =~= final_ordered.skip(s + 1));
            assert(frest.len() > 0 ==> frest.drop_first() =~= final_fallback.skip(fb + 1));
            assert(rest[0] == final_ordered[s as int]);
            assert(frest.len() == fallback@.len() - fb);
            assert(frest.len() > 0 ==> frest[0] == fallback@[fb as int] as int);
        }
        match ordered[s] {
            Some(x) => {
                let ghost before = out@.map_values(|x: usize| x as int);
                out.push(x);
                assert(out@.map_values(|x: usize| x as int) =~= before.push(x as int));
                assert(before.push(x as int) + filled(rest.drop_first(), frest) =~= before + (seq![x as int] + filled(rest.drop_first(), frest)));
            },
            None => {
                if fb < fallback.len() {
                    let x = fallback[fb];
                    let ghost before = out@.map_values(|x: usize| x as int);
                    out.push(x);
                    fb = fb + 1;
                    assert(out@.map_values(|x: usize| x as int) =~= before.push(x as int));
                    assert(before.push(x as int) + filled(rest.drop_first(), frest.drop_first()) =~= before + (seq![x as int] + filled(rest.drop_first(), frest.drop_first())));
                }
            },
        }
        s = s + 1;
    }
    proof {
        assert(final_ordered.skip(n as int) =~= Seq::<Option<int>>::empty());
        assert(out@.map_values(|x: usize| x as int) + Seq::<int>::empty() =~= out@.map_values(|x: usize| x as int));
        assert(final_ordered.skip(0) =~= final_ordered);
        assert(final_fallback.skip(0) =~= final_fallback);
    }
    out
}

fn tag_classes(tags: &MammoTags) -> (r: (u8, u8))
    ensures
        r.0 == exact_view_class(opt_text(tags.view_position)),
        r.1 == laterality_class(opt_text(tags.laterality)),
{
    let vc = tags_chars(&tags.view_position);
    let lc = tags_chars(&tags.laterality);
    let v = match &vc {
        Some(x) => exact_view_class_chars(Some(x.as_slice())),
        None => exact_view_class_chars(None),
    };
    let l = match &lc {
        Some(x) => laterality_class_chars(Some(x.as_slice())),
        None => laterality_class_chars(None),
    };
    (v, l)
}

/// The display order of an image: view (CC, MLO, other), laterality (R,
/// L, other), instance number (unknown last), then file name.
pub fn mammo_sort_key(tags: &MammoTags, instance_number: Option<i32>, file_name: &str) -> (r: (
    u8,
    u8,
    i32,
    String,
))
    ensures
        r.0 == exact_view_class(opt_text(tags.view_position)),
        r.1 == laterality_class(opt_text(tags.laterality)),
        r.2 == match instance_number {
            Some(n) => n,
            None => i32::MAX,
        },
        r.3@ == file_name@,
{
    let (v, l) = tag_classes(tags);
    let n = match instance_number {
        Some(n) => n,
        None => i32::MAX,
    };
    (v, l, n, String::from_str(file_name))
}

/// The short code of an image: laterality then view (`RCC`, `LMLO`, ...),
/// or whichever of the two is known.
pub open spec fn label_code(t: MammoTags) -> Seq<char> {
    let l = laterality_class(opt_text(t.laterality));
    let v = exact_view_class(opt_text(t.view_position));
    let ls = if l == 0 {
        seq!['R']
    } else if l == 1 {
        seq!['L']
    } else {
        seq![]
    };
    let vs = if v == 0 {
        seq!['C', 'C']
    } else if v == 1 {
        seq!['M', 'L', 'O']
    } else {
        seq![]
    };
    ls + vs
}

/// The caption of an image: its code and file name (`RCC (a.dcm)`), or
/// the file name alone when the code is empty.
pub fn mammo_label(tags: &MammoTags, file_name: &str) -> (r: String)
    ensures
        label_code(*tags).len() == 0 ==> r@ == file_name@,
        label_code(*tags).len() > 0 ==> r@ == label_code(*tags) + seq![' ', '('] + file_name@ + seq![')'],
{
    let (v, l) = tag_classes(tags);
    let mut code: Vec<char> = Vec::new();
    if l == 0 {
        code.push('R');
    } else if l == 1 {
        code.push('L');
    }
    if v == 0 {
        code.push('C');
        code.push('C');
    } else if v == 1 {
        code.push('M');
        code.push('L');
        code.push('O');
    }
    assert(code@ =~= label_code(*tags));
    if code.len() == 0 {
        return String::from_str(file_name);
    }
    code.push(' ');
    code.push('(');
    let name = chars_of(file_name);
    let mut k: usize = 0;
    let ghost head = code@;
    while k < name.len()
        invariant
            k <= name@.len(),
            code@ == head + name@.take(k as int),
        decreases name@.len() - k,
    {
        code.push(name[k]);
        k = k + 1;
        assert(code@ =~= head + name@.take(k as int));
    }
    code.push(')');
    assert(name@.take(name@.len() as int) =~= name@);
    assert(code@ =~= label_code(*tags) + seq![' ', '('] + file_name@ + seq![')']);
    crate::text::string_of(&code)
}

} // verus!

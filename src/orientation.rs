//! Normalization of the view position and laterality read from a DICOM
//! object: coded and spelled-out forms collapse to `CC`/`MLO` and `R`/`L`.
use vstd::prelude::*;
use vstd::string::StringExecFns;

use crate::text::{
    alnum_only, chars_of, contains, contains_seq, keep_alnum, starts_with_seq, string_of, to_upper,
    trim, trim_seq, upper_seq,
};

verus! {

/// The letters and digits of a raw value, trimmed and upper-cased.
pub open spec fn clean_token(raw: Seq<char>) -> Seq<char> {
    alnum_only(upper_seq(trim_seq(raw)))
}

/// View position: `CC` when the token names the cranio-caudal view (code
/// R-10242, the words, or `CC`), else `MLO` for the medio-lateral oblique
/// view (code R-10226, the words, or `MLO`), else the trimmed raw value;
/// nothing for a value without letters or digits.
pub open spec fn view_position_of(raw: Seq<char>) -> Option<Seq<char>> {
    let t = clean_token(raw);
    if t.len() == 0 {
        None
    } else if contains_seq(t, "R10242"@) || contains_seq(t, "CRANIOCAUDAL"@) || contains_seq(t, "CC"@) {
        Some("CC"@)
    } else if contains_seq(t, "R10226"@) || contains_seq(t, "MEDIOLATERALOBLIQUE"@) || contains_seq(
        t,
        "MLO"@,
    ) {
        Some("MLO"@)
    } else {
        Some(trim_seq(raw))
    }
}

/// Laterality: `R` for a token starting with R or containing RIGHT, else `L`
/// for one starting with L or containing LEFT, else the trimmed raw value;
/// nothing for a value without letters or digits.
pub open spec fn laterality_of(raw: Seq<char>) -> Option<Seq<char>> {
    let t = clean_token(raw);
    if t.len() == 0 {
        None
    } else if starts_with_seq(t, "R"@) || contains_seq(t, "RIGHT"@) {
        Some("R"@)
    } else if starts_with_seq(t, "L"@) || contains_seq(t, "LEFT"@) {
        Some("L"@)
    } else {
        Some(trim_seq(raw))
    }
}

fn has(t: &[char], lit: &str) -> (r: bool)
    ensures
        r == contains_seq(t@, lit@),
{
    let l = chars_of(lit);
    contains(t, &l)
}

fn begins(t: &[char], lit: &str) -> (r: bool)
    ensures
        r == starts_with_seq(t@, lit@),
{
    let l = chars_of(lit);
    crate::text::starts_with(t, &l)
}

fn clean(raw: &[char]) -> (r: Vec<char>)
    ensures
        r@ == clean_token(raw@),
{
    let t = trim(raw);
    let u = to_upper(&t);
    keep_alnum(&u)
}

/// Normalizes a raw view position (see `view_position_of`).
pub fn normalize_view_position(raw: &str) -> (r: Option<String>)
    ensures
        match r {
            Some(v) => view_position_of(raw@) == Some(v@),
            None => view_position_of(raw@) is None,
        },
{
    let chars = chars_of(raw);
    let t = clean(&chars);
    if t.len() == 0 {
        return None;
    }
    if has(&t, "R10242") || has(&t, "CRANIOCAUDAL") || has(&t, "CC") {
        return Some(String::from_str("CC"));
    }
    if has(&t, "R10226") || has(&t, "MEDIOLATERALOBLIQUE") || has(&t, "MLO") {
        return Some(String::from_str("MLO"));
    }
    Some(string_of(&trim(&chars)))
}

/// Normalizes a raw laterality (see `laterality_of`).
pub fn normalize_laterality(raw: &str) -> (r: Option<String>)
    ensures
        match r {
            Some(v) => laterality_of(raw@) == Some(v@),
            None => laterality_of(raw@) is None,
        },
{
    let chars = chars_of(raw);
    let t = clean(&chars);
    if t.len() == 0 {
        return None;
    }
    if begins(&t, "R") || has(&t, "RIGHT") {
        return Some(String::from_str("R"));
    }
    if begins(&t, "L") || has(&t, "LEFT") {
        return Some(String::from_str("L"));
    }
    Some(string_of(&trim(&chars)))
}

} // verus!

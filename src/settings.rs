//! The metadata fields the viewer can show, and the small settings file
//! that lists the visible ones (`visible_metadata_fields = [ ... ]`).
use vstd::prelude::*;
use vstd::string::StringExecFns;

use crate::text::{
    chars_of, find, find_char, find_seq, lemma_find_from_facts, occurs_at, slice_vec, split_char,
    split_seq, string_of, trim, trim_seq,
};

verus! {

/// The fixed list of metadata fields, in display order.
pub open spec fn field_names() -> Seq<Seq<char>> {
    seq![
        "PatientName"@, "PatientID"@, "PatientSex"@, "PatientBirthDate"@, "StudyDate"@,
        "StudyDescription"@, "SeriesDescription"@, "Modality"@, "Manufacturer"@,
        "InstitutionName"@, "BodyPartExamined"@, "SliceThickness"@, "KVP"@, "Rows"@,
        "Columns"@, "SamplesPerPixel"@, "PlanarConfiguration"@, "NumberOfFrames"@,
        "FrameTime"@, "BitsAllocated"@, "BitsStored"@, "PixelRepresentation"@,
        "PhotometricInterpretation"@, "ViewPosition"@, "ImageLaterality"@, "Laterality"@,
        "FrameLaterality"@, "InstanceNumber"@,
    ]
}

pub open spec fn texts(v: Seq<String>) -> Seq<Seq<char>> {
    v.map_values(|s: String| s@)
}

/// The metadata field names, in display order.
pub fn metadata_field_names() -> (r: Vec<String>)
    ensures
        texts(r@) == field_names(),
{
    let names = [
        "PatientName", "PatientID", "PatientSex", "PatientBirthDate", "StudyDate",
        "StudyDescription", "SeriesDescription", "Modality", "Manufacturer", "InstitutionName",
        "BodyPartExamined", "SliceThickness", "KVP", "Rows", "Columns", "SamplesPerPixel",
        "PlanarConfiguration", "NumberOfFrames", "FrameTime", "BitsAllocated", "BitsStored",
        "PixelRepresentation", "PhotometricInterpretation", "ViewPosition", "ImageLaterality",
        "Laterality", "FrameLaterality", "InstanceNumber",
    ];
    let ghost spec_names = seq![
        "PatientName"@, "PatientID"@, "PatientSex"@, "PatientBirthDate"@, "StudyDate"@,
        "StudyDescription"@, "SeriesDescription"@, "Modality"@, "Manufacturer"@,
        "InstitutionName"@, "BodyPartExamined"@, "SliceThickness"@, "KVP"@, "Rows"@,
        "Columns"@, "SamplesPerPixel"@, "PlanarConfiguration"@, "NumberOfFrames"@,
        "FrameTime"@, "BitsAllocated"@, "BitsStored"@, "PixelRepresentation"@,
        "PhotometricInterpretation"@, "ViewPosition"@, "ImageLaterality"@, "Laterality"@,
        "FrameLaterality"@, "InstanceNumber"@,
    ];
    assert(names@.map_values(|s: &str| s@) =~= spec_names);
    let mut out: Vec<String> = Vec::new();
    let mut k: usize = 0;
    while k < 28
        invariant
            k <= 28,
            names@.len() == 28,
            names@.map_values(|s: &str| s@) == field_names(),
            texts(out@) == field_names().take(k as int),
        decreases 28 - k,
    {
        let ghost prev = out@;
        let s = String::from_str(names[k]);
        out.push(s);
        assert(texts(out@) =~= texts(prev).push(s@));
        assert(field_names().take(k + 1) =~= field_names().take(k as int).push(names@[k as int]@));
        k = k + 1;
    }
    assert(field_names().take(28) =~= field_names());
    out
}

/// Every field is visible by default.
pub fn default_visible_metadata_fields() -> (r: Vec<String>)
    ensures
        texts(r@) == field_names(),
{
    metadata_field_names()
}

/// The members of `names` that `chosen` holds, in the order of `names`.
pub open spec fn chosen_in_order(names: Seq<Seq<char>>, chosen: Seq<Seq<char>>) -> Seq<Seq<char>>
    decreases names.len(),
{
    if names.len() == 0 {
        seq![]
    } else if chosen.contains(names.last()) {
        chosen_in_order(names.drop_last(), chosen).push(names.last())
    } else {
        chosen_in_order(names.drop_last(), chosen)
    }
}

fn holds(set: &[String], item: &String) -> (r: bool)
    ensures
        r == texts(set@).contains(item@),
{
    let mut k: usize = 0;
    while k < set.len()
        invariant
            k <= set@.len(),
            forall|j: int| 0 <= j < k ==> set@[j]@ != item@,
        decreases set@.len() - k,
    {
        if set[k] == *item {
            assert(texts(set@)[k as int] == item@);
            return true;
        }
        k = k + 1;
    }
    assert forall|j: int| 0 <= j < texts(set@).len() implies texts(set@)[j] != item@ by {
        assert(texts(set@)[j] == set@[j]@);
    }
    false
}

fn filter_in_order(names: &Vec<String>, chosen: &[String]) -> (r: Vec<String>)
    ensures
        texts(r@) == chosen_in_order(texts(names@), texts(chosen@)),
{
    let ghost nv = texts(names@);
    let mut out: Vec<String> = Vec::new();
    let mut k: usize = 0;
    while k < names.len()
        invariant
            k <= names@.len(),
            nv == texts(names@),
            texts(out@) == chosen_in_order(nv.take(k as int), texts(chosen@)),
        decreases names@.len() - k,
    {
        proof {
            assert(nv.take(k + 1).drop_last() =~= nv.take(k as int));
            assert(nv.take(k + 1).last() == names@[k as int]@);
        }
        if holds(chosen, &names[k]) {
            let ghost prev = out@;
            let s = names[k].clone();
            out.push(s);
            assert(texts(out@) =~= texts(prev).push(s@));
        }
        k = k + 1;
    }
    assert(nv.take(names@.len() as int) =~= nv);
    out
}

/// The visible fields in display order; unknown names are left out.
pub fn ordered_visible_metadata_fields(visible: &[String]) -> (r: Vec<String>)
    ensures
        texts(r@) == chosen_in_order(field_names(), texts(visible@)),
{
    let names = metadata_field_names();
    filter_in_order(&names, visible)
}

/// The fields read from a settings file, kept when known: all of them
/// when the file lists none; nothing (`None`) when it lists only unknown ones.
pub open spec fn visible_from_listed(listed: Seq<Seq<char>>) -> Option<Seq<Seq<char>>> {
    let known = chosen_in_order(field_names(), listed);
    if listed.len() > 0 && known.len() == 0 {
        None
    } else {
        Some(known)
    }
}

pub fn visible_fields_from_settings(listed: &[String]) -> (r: Option<Vec<String>>)
    ensures
        match r {
            Some(v) => visible_from_listed(texts(listed@)) == Some(texts(v@)),
            None => visible_from_listed(texts(listed@)) is None,
        },
{
    let known = ordered_visible_metadata_fields(listed);
    if listed.len() > 0 && known.len() == 0 {
        None
    } else {
        Some(known)
    }
}

/// A backslash or quote gets a backslash before it.
pub open spec fn escape_toml(s: Seq<char>) -> Seq<char>
    decreases s.len(),
{
    if s.len() == 0 {
        seq![]
    } else {
        let c = s.last();
        escape_toml(s.drop_last()) + if c == '\\' || c == '"' {
            seq!['\\', c]
        } else {
            seq![c]
        }
    }
}

pub fn escape_toml_string(value: &str) -> (r: String)
    ensures
        r@ == escape_toml(value@),
{
    let s = chars_of(value);
    let mut out: Vec<char> = Vec::new();
    let mut i: usize = 0;
    while i < s.len()
        invariant
            i <= s@.len(),
            s@ == value@,
            out@ == escape_toml(s@.take(i as int)),
        decreases s@.len() - i,
    {
        proof {
            assert(s@.take(i + 1).drop_last() =~= s@.take(i as int));
        }
        let c = s[i];
        if c == '\\' || c == '"' {
            out.push('\\');
        }
        out.push(c);
        i = i + 1;
        assert(out@ =~= escape_toml(s@.take(i as int)));
    }
    assert(s@.take(s@.len() as int) =~= s@);
    string_of(&out)
}

pub open spec fn toml_escape_char(c: char) -> char {
    if c == 'n' {
        '\n'
    } else if c == 'r' {
        '\r'
    } else if c == 't' {
        '\t'
    } else {
        c
    }
}

/// Backslash escapes decoded: `\n`, `\r`, `\t`, and any other escaped
/// character stands for itself; a trailing backslash is dropped.
pub open spec fn unescape_toml(s: Seq<char>) -> Seq<char>
    decreases s.len(),
{
    if s.len() == 0 {
        seq![]
    } else if s[0] != '\\' {
        seq![s[0]] + unescape_toml(s.skip(1))
    } else if s.len() == 1 {
        seq![]
    } else {
        seq![toml_escape_char(s[1])] + unescape_toml(s.skip(2))
    }
}

pub fn unescape_toml_chars(input: &[char]) -> (r: Vec<char>)
    ensures
        r@ == unescape_toml(input@),
{
    let n = input.len();
    let mut out: Vec<char> = Vec::new();
    let mut i: usize = 0;
    assert(input@.skip(0) =~= input@);
    while i < n
        invariant
            n == input@.len(),
            i <= n,
            out@ + unescape_toml(input@.skip(i as int)) == unescape_toml(input@),
        decreases n - i,
    {
        let ghost rest = input@.skip(i as int);
        let ch = input[i];
        if ch != '\\' {
            out.push(ch);
            i = i + 1;
            proof {
                assert(rest.skip(1) =~= input@.skip(i as int));
                assert(out@ + unescape_toml(input@.skip(i as int)) =~= (out@.drop_last() + (seq![ch] + unescape_toml(rest.skip(1)))));
            }
        } else if i + 1 >= n {
            proof {
                assert(rest.len() == 1);
                assert(input@.skip(n as int) =~= seq![]);
                assert(out@ + unescape_toml(input@.skip(n as int)) =~= out@);
            }
            i = n;
        } else {
            let next = input[i + 1];
            let e = if next == 'n' {
                '\n'
            } else if next == 'r' {
                '\r'
            } else if next == 't' {
                '\t'
            } else {
                next
            };
            out.push(e);
            i = i + 2;
            proof {
                assert(rest.skip(2) =~= input@.skip(i as int));
                assert(out@ + unescape_toml(input@.skip(i as int)) =~= (out@.drop_last() + (seq![e] + unescape_toml(rest.skip(2)))));
            }
        }
    }
    proof {
        assert(input@.skip(n as int) =~= seq![]);
        assert(out@ + unescape_toml(input@.skip(n as int)) =~= out@);
    }
    out
}

pub fn unescape_toml_string(value: &str) -> (r: String)
    ensures
        r@ == unescape_toml(value@),
{
    let c = chars_of(value);
    string_of(&unescape_toml_chars(&c))
}

/// Unescaping undoes escaping.
pub proof fn lemma_unescape_escape(s: Seq<char>)
    ensures
        unescape_toml(escape_toml(s)) == s,
    decreases s.len(),
{
    if s.len() > 0 {
        let c = s[0];
        let rest = s.skip(1);
        lemma_unescape_escape(rest);
        lemma_escape_first(s);
        let e = if c == '\\' || c == '"' {
            seq!['\\', c]
        } else {
            seq![c]
        };
        assert(escape_toml(s) == e + escape_toml(rest));
        if c == '\\' || c == '"' {
            assert((e + escape_toml(rest))[0] == '\\');
            assert((e + escape_toml(rest))[1] == c);
            assert((e + escape_toml(rest)).skip(2) =~= escape_toml(rest));
        } else {
            assert((e + escape_toml(rest))[0] == c);
            assert((e + escape_toml(rest)).skip(1) =~= escape_toml(rest));
        }
        assert(seq![c] + rest =~= s);
    }
}

proof fn lemma_escape_first(s: Seq<char>)
    requires
        s.len() > 0,
    ensures
        escape_toml(s) == (if s[0] == '\\' || s[0] == '"' {
            seq!['\\', s[0]]
        } else {
            seq![s[0]]
        }) + escape_toml(s.skip(1)),
    decreases s.len(),
{
    if s.len() == 1 {
        assert(s.drop_last() =~= seq![]);
        assert(s.skip(1) =~= seq![]);
        assert(escape_toml(s.skip(1)) == Seq::<char>::empty());
        assert(escape_toml(s.drop_last()) == Seq::<char>::empty());
    } else {
        lemma_escape_first(s.drop_last());
        assert(s.drop_last()[0] == s[0]);
        assert(s.drop_last().skip(1) =~= s.skip(1).drop_last());
        assert(s.skip(1).last() == s.last());
    }
}

/// The settings text for a list of visible fields.
pub fn render_settings_toml(fields: &[String]) -> (r: String)
    ensures
        r@ == rendered_settings(texts(fields@)),
{
    let mut text = String::from_str("visible_metadata_fields = [\n");
    let mut k: usize = 0;
    while k < fields.len()
        invariant
            k <= fields@.len(),
            text@ == "visible_metadata_fields = [\n"@ + rendered_entries(texts(fields@).take(k as int)),
        decreases fields@.len() - k,
    {
        proof {
            assert(texts(fields@).take(k + 1).drop_last() =~= texts(fields@).take(k as int));
            assert(texts(fields@).take(k + 1).last() == fields@[k as int]@);
        }
        text.append("  \"");
        let esc = escape_toml_string(fields[k].as_str());
        text.append(esc.as_str());
        text.append("\",\n");
        k = k + 1;
        assert(text@ =~= "visible_metadata_fields = [\n"@ + rendered_entries(texts(fields@).take(k as int)));
    }
    text.append("]\n");
    assert(texts(fields@).take(fields@.len() as int) =~= texts(fields@));
    text
}

/// One line `  "<escaped>",` per field.
pub open spec fn rendered_entries(fields: Seq<Seq<char>>) -> Seq<char>
    decreases fields.len(),
{
    if fields.len() == 0 {
        seq![]
    } else {
        rendered_entries(fields.drop_last()) + "  \""@ + escape_toml(fields.last()) + "\",\n"@
    }
}

pub open spec fn rendered_settings(fields: Seq<Seq<char>>) -> Seq<char> {
    "visible_metadata_fields = [\n"@ + rendered_entries(fields) + "]\n"@
}

/// The quoted entries of a list body, unescaped; other entries are skipped.
pub open spec fn quoted_entries(chunks: Seq<Seq<char>>) -> Seq<Seq<char>>
    decreases chunks.len(),
{
    if chunks.len() == 0 {
        seq![]
    } else {
        let t = trim_seq(chunks.last());
        let prev = quoted_entries(chunks.drop_last());
        if t.len() >= 2 && t[0] == '"' && t.last() == '"' {
            prev.push(unescape_toml(t.subrange(1, t.len() - 1)))
        } else {
            prev
        }
    }
}

/// The fields listed by the settings text: after the key
/// `visible_metadata_fields`, between the next `[` and the `]` after it.
pub open spec fn listed_fields(text: Seq<char>) -> Option<Seq<Seq<char>>> {
    match find_seq(text, "visible_metadata_fields"@) {
        None => None,
        Some(k) => match find_seq(text.skip(k), seq!['[']) {
            None => None,
            Some(o) => {
                let tail = text.skip(k + o + 1);
                match find_seq(tail, seq![']']) {
                    None => None,
                    Some(c) => Some(quoted_entries(split_seq(tail.take(c), ','))),
                }
            },
        },
    }
}

/// Reads the visible fields from settings text (see `listed_fields`).
pub fn parse_visible_metadata_fields_from_toml(text: &str) -> (r: Option<Vec<String>>)
    ensures
        match r {
            Some(v) => listed_fields(text@) == Some(texts(v@)),
            None => listed_fields(text@) is None,
        },
{
    let t = chars_of(text);
    let key = chars_of("visible_metadata_fields");
    let tl = t.len();
    let k = match find(&t, &key) {
        Some(k) => k,
        None => return None,
    };
    proof {
        lemma_find_from_facts(t@, key@, 0);
        assert(occurs_at(t@, key@, k as int));
    }
    let after_key = slice_vec(&t, k, tl);
    assert(after_key@ =~= t@.skip(k as int));
    let o = match find_char(&after_key, '[') {
        Some(o) => o,
        None => return None,
    };
    proof {
        lemma_find_from_facts(after_key@, seq!['['], 0);
        assert(occurs_at(after_key@, seq!['['], o as int));
    }
    let tail = slice_vec(&t, k + o + 1, tl);
    assert(tail@ =~= t@.skip(k + o + 1));
    let c = match find_char(&tail, ']') {
        Some(c) => c,
        None => return None,
    };
    proof {
        lemma_find_from_facts(tail@, seq![']'], 0);
        assert(occurs_at(tail@, seq![']'], c as int));
    }
    let body = slice_vec(&tail, 0, c);
    assert(body@ =~= tail@.take(c as int));
    let chunks = split_char(&body, ',');
    let ghost cv = chunks@.map_values(|v: Vec<char>| v@);
    let mut fields: Vec<String> = Vec::new();
    let mut i: usize = 0;
    while i < chunks.len()
        invariant
            i <= chunks@.len(),
            cv == chunks@.map_values(|v: Vec<char>| v@),
            texts(fields@) == quoted_entries(cv.take(i as int)),
        decreases chunks@.len() - i,
    {
        proof {
            assert(cv.take(i + 1).drop_last() =~= cv.take(i as int));
            assert(cv.take(i + 1).last() == chunks@[i as int]@);
        }
        let tok = trim(&chunks[i]);
        let n = tok.len();
        if n >= 2 && tok[0] == '"' && tok[n - 1] == '"' {
            let inner = slice_vec(&tok, 1, n - 1);
            let s = string_of(&unescape_toml_chars(&inner));
            let ghost prev = fields@;
            fields.push(s);
            assert(texts(fields@) =~= texts(prev).push(s@));
        }
        i = i + 1;
    }
    assert(cv.take(chunks@.len() as int) =~= cv);
    Some(fields)
}

} // verus!

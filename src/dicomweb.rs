//! DICOMweb (WADO-RS) protocol helpers: base URL normalization, endpoint
//! URLs, metadata parsing into instances, and file names for downloads.
use vstd::prelude::*;
use vstd::string::StringExecFns;

use crate::json::{first_tag_chars, first_tag_value, split_top_level_json_objects, strings_view, top_level_objects};
use crate::text::{
    chars_of, find, find_char, find_seq, is_ascii_alnum, is_ws, lemma_find_from_facts, occurs_at,
    slice_vec, string_of, trim, trim_end_char, trim_end_matches, trim_end_seq, trim_seq,
    trim_start_seq,
};

verus! {

/// One instance of a remote study, as read from its metadata.
#[derive(Debug, Clone, PartialEq, Eq)]
pub struct MetadataInstance {
    pub series_uid: Option<String>,
    pub instance_uid: String,
    pub view_position: Option<String>,
    pub laterality: Option<String>,
    pub instance_number: Option<i32>,
}

/// What a `MetadataInstance` holds, as mathematical values.
pub struct InstanceView {
    pub series_uid: Option<Seq<char>>,
    pub instance_uid: Seq<char>,
    pub view_position: Option<Seq<char>>,
    pub laterality: Option<Seq<char>>,
    pub instance_number: Option<i32>,
}

pub open spec fn opt_view(o: Option<String>) -> Option<Seq<char>> {
    match o {
        Some(s) => Some(s@),
        None => None,
    }
}

impl View for MetadataInstance {
    type V = InstanceView;

    open spec fn view(&self) -> InstanceView {
        InstanceView {
            series_uid: opt_view(self.series_uid),
            instance_uid: self.instance_uid@,
            view_position: opt_view(self.view_position),
            laterality: opt_view(self.laterality),
            instance_number: self.instance_number,
        }
    }
}

pub open spec fn instances_view(v: Seq<MetadataInstance>) -> Seq<InstanceView> {
    v.map_values(|m: MetadataInstance| m@)
}

pub fn copy_opt_string(o: &Option<String>) -> (r: Option<String>)
    ensures
        opt_view(r) == opt_view(*o),
{
    match o {
        Some(s) => Some(s.clone()),
        None => None,
    }
}

impl MetadataInstance {
    /// A copy holding the same values.
    pub fn duplicate(&self) -> (r: MetadataInstance)
        ensures
            r@ == self@,
    {
        MetadataInstance {
            series_uid: copy_opt_string(&self.series_uid),
            instance_uid: self.instance_uid.clone(),
            view_position: copy_opt_string(&self.view_position),
            laterality: copy_opt_string(&self.laterality),
            instance_number: self.instance_number,
        }
    }
}

pub open spec fn tag_sop_instance_uid() -> Seq<char> {
    seq!['0', '0', '0', '8', '0', '0', '1', '8']
}

pub open spec fn tag_series_instance_uid() -> Seq<char> {
    seq!['0', '0', '2', '0', '0', '0', '0', 'E']
}

pub open spec fn tag_instance_number() -> Seq<char> {
    seq!['0', '0', '2', '0', '0', '0', '1', '3']
}

pub open spec fn tag_view_position() -> Seq<char> {
    seq!['0', '0', '1', '8', '5', '1', '0', '1']
}

pub open spec fn tag_image_laterality() -> Seq<char> {
    seq!['0', '0', '2', '0', '0', '0', '6', '2']
}

pub open spec fn tag_laterality() -> Seq<char> {
    seq!['0', '0', '2', '0', '0', '0', '6', '0']
}

pub open spec fn dec_val(c: char) -> Option<int> {
    if '0' <= c && c <= '9' {
        Some(c as int - '0' as int)
    } else {
        None
    }
}

/// Base-10 value of a digit string (`None` when empty or a non-digit appears).
pub open spec fn dec_digits_value(s: Seq<char>) -> Option<int>
    decreases s.len(),
{
    if s.len() == 0 {
        None
    } else if s.len() == 1 {
        dec_val(s[0])
    } else {
        match (dec_digits_value(s.drop_last()), dec_val(s.last())) {
            (Some(a), Some(b)) => Some(a * 10 + b),
            _ => None,
        }
    }
}

/// `str::parse::<i32>`: an optional sign, then decimal digits, in range.
pub open spec fn parse_i32_spec(s: Seq<char>) -> Option<i32> {
    if s.len() > 0 && s[0] == '-' {
        match dec_digits_value(s.skip(1)) {
            Some(v) => if v <= 2147483648 {
                Some((-v) as i32)
            } else {
                None
            },
            None => None,
        }
    } else {
        let d = if s.len() > 0 && s[0] == '+' {
            s.skip(1)
        } else {
            s
        };
        match dec_digits_value(d) {
            Some(v) => if v <= 2147483647 {
                Some(v as i32)
            } else {
                None
            },
            None => None,
        }
    }
}

proof fn lemma_dec_none(s: Seq<char>, a: int, i: int, b: int)
    requires
        0 <= a <= i < b <= s.len(),
        dec_val(s[i]) is None,
    ensures
        dec_digits_value(s.subrange(a, b)) is None,
    decreases b - i,
{
    let t = s.subrange(a, b);
    if b - 1 == i {
        assert(t.last() == s[i]);
    } else {
        lemma_dec_none(s, a, i, b - 1);
        assert(t.drop_last() =~= s.subrange(a, b - 1));
    }
}

/// Parses a decimal `i32` as `str::parse` does.
pub fn parse_i32(s: &[char]) -> (r: Option<i32>)
    ensures
        r == parse_i32_spec(s@),
{
    let n = s.len();
    let neg = n > 0 && s[0] == '-';
    let a: usize = if n > 0 && (s[0] == '-' || s[0] == '+') { 1 } else { 0 };
    proof {
        assert(s@.skip(a as int) =~= s@.subrange(a as int, n as int));
        assert(a == 0 ==> s@.subrange(0, n as int) =~= s@);
    }
    if a >= n {
        return None;
    }
    let mut acc: u64 = 0;
    let mut too_big = false;
    let mut i: usize = a;
    while i < n
        invariant
            n == s@.len(),
            a < n,
            a <= i <= n,
            acc <= 2147483648,
            i == a ==> acc == 0 && !too_big,
            a == 1 <==> (s@[0] == '-' || s@[0] == '+'),
            a <= 1,
            neg == (s@[0] == '-'),
            i > a ==> (dec_digits_value(s@.subrange(a as int, i as int)) matches Some(v) && (
            too_big ==> v > 2147483648) && (!too_big ==> v == acc as int)),
        decreases n - i,
    {
        let c = s[i];
        if !('0' <= c && c <= '9') {
            proof {
                assert(dec_val(s@[i as int]) is None);
                lemma_dec_none(s@, a as int, i as int, n as int);
                assert(dec_digits_value(s@.subrange(a as int, n as int)) is None);
                if a == 1 {
                    assert(s@.skip(1) =~= s@.subrange(1, n as int));
                } else {
                    assert(s@ =~= s@.subrange(0, n as int));
                }
            }
            return None;
        }
        let d = ((c as u32) - ('0' as u32)) as u64;
        let ghost prev: int = if i > a {
            dec_digits_value(s@.subrange(a as int, i as int))->0
        } else {
            0
        };
        proof {
            let t = s@.subrange(a as int, i + 1);
            assert(t.drop_last() =~= s@.subrange(a as int, i as int));
            assert(t.last() == c);
            assert(dec_val(c) == Some(d as int));
            if i > a {
                assert(dec_digits_value(t) == Some(prev * 10 + d));
                if too_big {
                    assert(prev * 10 + d > 2147483648) by (nonlinear_arith)
                        requires prev > 2147483648, d >= 0;
                }
            } else {
                assert(t.len() == 1);
                assert(dec_digits_value(t) == Some(d as int));
            }
        }
        if !too_big {
            let next = acc * 10 + d;
            if next > 2147483648 {
                too_big = true;
            } else {
                acc = next;
            }
        }
        i = i + 1;
    }
    if too_big {
        return None;
    }
    if neg {
        Some((0 - (acc as i64)) as i32)
    } else if acc <= 2147483647 {
        Some(acc as i32)
    } else {
        None
    }
}

/// The instance that a metadata object describes, when it names a
/// non-blank SOP Instance UID.
pub open spec fn instance_of_object(obj: Seq<char>) -> Option<InstanceView> {
    match first_tag_value(obj, tag_sop_instance_uid()) {
        None => None,
        Some(uid) => if trim_seq(uid).len() == 0 {
            None
        } else {
            Some(
                InstanceView {
                    series_uid: first_tag_value(obj, tag_series_instance_uid()),
                    instance_uid: uid,
                    view_position: first_tag_value(obj, tag_view_position()),
                    laterality: match first_tag_value(obj, tag_image_laterality()) {
                        Some(l) => Some(l),
                        None => first_tag_value(obj, tag_laterality()),
                    },
                    instance_number: match first_tag_value(obj, tag_instance_number()) {
                        Some(t) => parse_i32_spec(t),
                        None => None,
                    },
                },
            )
        },
    }
}

/// The instances described by a sequence of metadata objects, in order.
pub open spec fn instances_of_objects(objs: Seq<Seq<char>>) -> Seq<InstanceView>
    decreases objs.len(),
{
    if objs.len() == 0 {
        seq![]
    } else {
        let prev = instances_of_objects(objs.drop_last());
        match instance_of_object(objs.last()) {
            Some(m) => prev.push(m),
            None => prev,
        }
    }
}

/// The instances of a metadata response, or `None` when it does not split.
pub open spec fn metadata_instances(json: Seq<char>) -> Option<Seq<InstanceView>> {
    match top_level_objects(json) {
        Some(objs) => Some(instances_of_objects(objs)),
        None => None,
    }
}

fn tag_value_string(obj: &[char], tag: &[char]) -> (r: Option<String>)
    ensures
        opt_view(r) == first_tag_value(obj@, tag@),
{
    match first_tag_chars(obj, tag) {
        Some(v) => Some(string_of(&v)),
        None => None,
    }
}

fn instance_from_object(obj: &[char]) -> (r: Option<MetadataInstance>)
    ensures
        match r {
            Some(m) => instance_of_object(obj@) == Some(m@),
            None => instance_of_object(obj@) is None,
        },
{
    let sop = ['0', '0', '0', '8', '0', '0', '1', '8'];
    let series = ['0', '0', '2', '0', '0', '0', '0', 'E'];
    let number = ['0', '0', '2', '0', '0', '0', '1', '3'];
    let view = ['0', '0', '1', '8', '5', '1', '0', '1'];
    let image_lat = ['0', '0', '2', '0', '0', '0', '6', '2'];
    let lat = ['0', '0', '2', '0', '0', '0', '6', '0'];
    assert(sop@ =~= tag_sop_instance_uid());
    assert(series@ =~= tag_series_instance_uid());
    assert(number@ =~= tag_instance_number());
    assert(view@ =~= tag_view_position());
    assert(image_lat@ =~= tag_image_laterality());
    assert(lat@ =~= tag_laterality());
    let uid = match first_tag_chars(obj, &sop) {
        None => return None,
        Some(u) => u,
    };
    if trim(&uid).len() == 0 {
        return None;
    }
    let laterality = match tag_value_string(obj, &image_lat) {
        Some(l) => Some(l),
        None => tag_value_string(obj, &lat),
    };
    let instance_number = match first_tag_chars(obj, &number) {
        Some(t) => parse_i32(&t),
        None => None,
    };
    Some(
        MetadataInstance {
            series_uid: tag_value_string(obj, &series),
            instance_uid: string_of(&uid),
            view_position: tag_value_string(obj, &view),
            laterality,
            instance_number,
        },
    )
}

/// Reads the instances out of a DICOMweb metadata response. Objects without
/// a non-blank SOP Instance UID are skipped.
pub fn parse_metadata_instances(json: &str) -> (r: Result<Vec<MetadataInstance>, String>)
    ensures
        match r {
            Ok(v) => metadata_instances(json@) == Some(instances_view(v@)),
            Err(_) => metadata_instances(json@) is None,
        },
{
    let objects = match split_top_level_json_objects(json) {
        Ok(o) => o,
        Err(e) => {
            let mut msg = String::from_str("DICOMweb metadata JSON parsing failed: ");
            msg.append(e.as_str());
            return Err(msg);
        },
    };
    let ghost objs = strings_view(objects@);
    let mut instances: Vec<MetadataInstance> = Vec::new();
    let mut k: usize = 0;
    while k < objects.len()
        invariant
            k <= objects@.len(),
            objs == strings_view(objects@),
            instances_view(instances@) == instances_of_objects(objs.take(k as int)),
        decreases objects@.len() - k,
    {
        let obj = chars_of(objects[k].as_str());
        proof {
            assert(objs.take(k + 1).drop_last() =~= objs.take(k as int));
            assert(objs.take(k + 1).last() == obj@);
        }
        match instance_from_object(&obj) {
            Some(m) => {
                instances.push(m);
                assert(instances_view(instances@) =~= instances_of_objects(objs.take(k as int)).push(m@));
            },
            None => {},
        }
        k = k + 1;
    }
    assert(objs.take(objects@.len() as int) =~= objs);
    Ok(instances)
}

/// `value` cut before its first `?` or `#`.
pub open spec fn strip_query_and_fragment_spec(v: Seq<char>) -> Seq<char> {
    let q = match find_seq(v, seq!['?']) {
        Some(i) => i,
        None => v.len() as int,
    };
    let f = match find_seq(v, seq!['#']) {
        Some(i) => i,
        None => v.len() as int,
    };
    v.take(if q < f { q } else { f })
}

pub fn strip_query_and_fragment(v: &[char]) -> (r: Vec<char>)
    ensures
        r@ == strip_query_and_fragment_spec(v@),
{
    let n = v.len();
    let q = match find_char(v, '?') {
        Some(i) => i,
        None => n,
    };
    let f = match find_char(v, '#') {
        Some(i) => i,
        None => n,
    };
    proof {
        lemma_find_from_facts(v@, seq!['?'], 0);
        lemma_find_from_facts(v@, seq!['#'], 0);
    }
    let end = if q < f { q } else { f };
    let r = slice_vec(v, 0, end);
    assert(r@ =~= v@.take(end as int));
    r
}

pub open spec fn all_slashes(s: Seq<char>) -> bool {
    forall|i: int| 0 <= i < s.len() ==> s[i] == '/'
}

pub open spec fn scheme_sep() -> Seq<char> {
    seq![':', '/', '/']
}

/// The URL has no path beyond its host: after `://` there is no `/`, or only
/// slashes follow the first one. Without a scheme: no `/` at all.
pub open spec fn root_only_path(url: Seq<char>) -> bool {
    match find_seq(url, scheme_sep()) {
        Some(p) => {
            let rest = url.skip(p + 3);
            match find_seq(rest, seq!['/']) {
                None => true,
                Some(s) => all_slashes(rest.skip(s)),
            }
        },
        None => find_seq(url, seq!['/']) is None,
    }
}

pub fn has_root_only_path(url: &[char]) -> (r: bool)
    ensures
        r == root_only_path(url@),
{
    let sep = [':', '/', '/'];
    assert(sep@ =~= scheme_sep());
    let ul = url.len();
    match find(url, &sep) {
        Some(p) => {
            proof {
                lemma_find_from_facts(url@, scheme_sep(), 0);
                assert(occurs_at(url@, scheme_sep(), p as int));
            }
            let rest = slice_vec(url, p + 3, ul);
            assert(rest@ =~= url@.skip(p + 3));
            match find_char(&rest, '/') {
                None => true,
                Some(s) => {
                    proof {
                        lemma_find_from_facts(rest@, seq!['/'], 0);
                    }
                    let mut i: usize = s;
                    while i < rest.len()
                        invariant
                            s <= i <= rest@.len(),
                            rest@ == url@.skip(p + 3),
                            find_seq(rest@, seq!['/']) == Some(s as int),
                            find_seq(url@, scheme_sep()) == Some(p as int),
                            forall|j: int| s <= j < i ==> rest@[j] == '/',
                        decreases rest@.len() - i,
                    {
                        if rest[i] != '/' {
                            assert(0 <= i - s < rest@.skip(s as int).len());
                            assert(rest@.skip(s as int)[i - s] != '/');
                            assert(!all_slashes(rest@.skip(s as int)));
                            assert(find_seq(rest@, seq!['/']) == Some(s as int));
                            assert(url@.skip(p + 3) == rest@);
                            return false;
                        }
                        i = i + 1;
                    }
                    assert forall|j: int| 0 <= j < rest@.skip(s as int).len() implies rest@.skip(
                        s as int,
                    )[j] == '/' by {
                        assert(rest@.skip(s as int)[j] == rest@[s + j]);
                    }
                    true
                },
            }
        },
        None => find_char(url, '/').is_none(),
    }
}

/// The base URL trimmed, without query, fragment and trailing slashes.
pub open spec fn base_url_core(base: Seq<char>) -> Seq<char> {
    trim_end_char(trim_seq(strip_query_and_fragment_spec(trim_seq(base))), '/')
}

pub open spec fn dicom_web_suffix() -> Seq<char> {
    seq!['/', 'd', 'i', 'c', 'o', 'm', '-', 'w', 'e', 'b']
}

/// A DICOMweb base URL normalized: the core of `base_url_core`, with
/// `/dicom-web` appended when the URL names a server root only.
pub open spec fn normalized_base_url(base: Seq<char>) -> Seq<char> {
    let t = base_url_core(base);
    if t.len() == 0 {
        t
    } else if root_only_path(t) {
        t + dicom_web_suffix()
    } else {
        t
    }
}

/// Normalizes a DICOMweb base URL (see `normalized_base_url`).
pub fn normalize_base_url(base_url: &str) -> (r: String)
    ensures
        r@ == normalized_base_url(base_url@),
{
    let chars = chars_of(base_url);
    let t0 = trim(&chars);
    let t1 = strip_query_and_fragment(&t0);
    let t2 = trim(&t1);
    let t = trim_end_matches(&t2, '/');
    if t.len() == 0 {
        return string_of(&t);
    }
    if has_root_only_path(&t) {
        let mut out = t;
        let suffix = ['/', 'd', 'i', 'c', 'o', 'm', '-', 'w', 'e', 'b'];
        let mut k: usize = 0;
        let ghost t_view = out@;
        while k < suffix.len()
            invariant
                k <= suffix@.len(),
                suffix@ == dicom_web_suffix(),
                out@ == t_view + suffix@.take(k as int),
            decreases suffix@.len() - k,
        {
            out.push(suffix[k]);
            k = k + 1;
            assert(out@ =~= t_view + suffix@.take(k as int));
        }
        assert(suffix@.take(10) =~= suffix@);
        return string_of(&out);
    }
    string_of(&t)
}

/// `GET {base}/studies/{study}/metadata`, or the series-scoped form.
pub fn metadata_url(base: &str, study_uid: &str, series_uid: Option<&str>) -> (r: String)
    ensures
        series_uid is None ==> r@ == base@ + "/studies/"@ + study_uid@ + "/metadata"@,
        series_uid matches Some(s) ==> r@ == base@ + "/studies/"@ + study_uid@ + "/series/"@ + s@
            + "/metadata"@,
{
    let mut url = String::from_str(base);
    url.append("/studies/");
    url.append(study_uid);
    match series_uid {
        Some(s) => {
            url.append("/series/");
            url.append(s);
        },
        None => {},
    }
    url.append("/metadata");
    url
}

/// The instance endpoints to try, in order: series-scoped first when a series is known.
pub fn instance_urls(base: &str, study_uid: &str, series_uid: Option<&str>, instance_uid: &str) -> (r: Vec<String>)
    ensures
        ({
            let study_scoped = base@ + "/studies/"@ + study_uid@ + "/instances/"@ + instance_uid@;
            match series_uid {
                Some(s) => r@.len() == 2 && r@[0]@ == base@ + "/studies/"@ + study_uid@ + "/series/"@
                    + s@ + "/instances/"@ + instance_uid@ && r@[1]@ == study_scoped,
                None => r@.len() == 1 && r@[0]@ == study_scoped,
            }
        }),
{
    let mut urls: Vec<String> = Vec::new();
    match series_uid {
        Some(s) => {
            let mut u = String::from_str(base);
            u.append("/studies/");
            u.append(study_uid);
            u.append("/series/");
            u.append(s);
            u.append("/instances/");
            u.append(instance_uid);
            urls.push(u);
        },
        None => {},
    }
    let mut u = String::from_str(base);
    u.append("/studies/");
    u.append(study_uid);
    u.append("/instances/");
    u.append(instance_uid);
    urls.push(u);
    urls
}

/// The `Accept` headers to try for an instance download, in order.
pub fn accept_variants() -> (r: Vec<String>)
    ensures
        r@.len() == 4,
        r@[0]@ == "application/dicom"@,
        r@[1]@ == "application/dicom; transfer-syntax=*"@,
        r@[2]@ == "multipart/related; type=application/dicom"@,
        r@[3]@ == "multipart/related; type=\"application/dicom\""@,
{
    let mut v: Vec<String> = Vec::new();
    v.push(String::from_str("application/dicom"));
    v.push(String::from_str("application/dicom; transfer-syntax=*"));
    v.push(String::from_str("multipart/related; type=application/dicom"));
    v.push(String::from_str("multipart/related; type=\"application/dicom\""));
    v
}

/// The texts joined with `; ` between them.
pub open spec fn joined_attempts(a: Seq<Seq<char>>) -> Seq<char>
    decreases a.len(),
{
    if a.len() == 0 {
        seq![]
    } else if a.len() == 1 {
        a[0]
    } else {
        joined_attempts(a.drop_last()) + "; "@ + a.last()
    }
}

/// The error of an instance that no URL and `Accept` combination could
/// download: it names the instance and lists every failed attempt.
pub open spec fn download_failure(
    study: Seq<char>,
    series: Option<Seq<char>>,
    instance: Seq<char>,
    attempts: Seq<Seq<char>>,
) -> Seq<char> {
    "Failed downloading DICOM instance from study "@ + study + ", series "@ + match series {
        Some(s) => s,
        None => "(none)"@,
    } + ", instance "@ + instance + ": "@ + if attempts.len() == 0 {
        "no successful download attempts"@
    } else {
        joined_attempts(attempts)
    }
}

/// Builds the message of a failed instance download (see `download_failure`).
pub fn download_failure_message(
    study_uid: &str,
    series_uid: Option<&str>,
    instance_uid: &str,
    attempts: &[String],
) -> (r: String)
    ensures
        r@ == download_failure(
            study_uid@,
            match series_uid {
                Some(s) => Some(s@),
                None => None,
            },
            instance_uid@,
            attempts@.map_values(|a: String| a@),
        ),
{
    let mut m = String::from_str("Failed downloading DICOM instance from study ");
    m.append(study_uid);
    m.append(", series ");
    match series_uid {
        Some(s) => m.append(s),
        None => m.append("(none)"),
    }
    m.append(", instance ");
    m.append(instance_uid);
    m.append(": ");
    let ghost head = m@;
    let ghost av = attempts@.map_values(|a: String| a@);
    if attempts.len() == 0 {
        m.append("no successful download attempts");
        return m;
    }
    let mut k: usize = 0;
    while k < attempts.len()
        invariant
            k <= attempts@.len(),
            av == attempts@.map_values(|a: String| a@),
            m@ == head + joined_attempts(av.take(k as int)),
        decreases attempts@.len() - k,
    {
        if k > 0 {
            m.append("; ");
        }
        m.append(attempts[k].as_str());
        proof {
            let t = av.take(k + 1);
            assert(t.drop_last() =~= av.take(k as int));
            assert(t.last() == attempts@[k as int]@);
            if k == 0 {
                assert(av.take(0) =~= Seq::<Seq<char>>::empty());
            }
        }
        k = k + 1;
    }
    assert(av.take(attempts@.len() as int) =~= av);
    m
}

pub open spec fn file_name_char(c: char) -> char {
    if is_ascii_alnum(c) || c == '.' || c == '-' || c == '_' {
        c
    } else {
        '_'
    }
}

/// Every character that is not ASCII alphanumeric, `.`, `-` or `_` becomes `_`.
pub fn sanitize_for_file_name(value: &str) -> (r: String)
    ensures
        r@ == value@.map_values(|c: char| file_name_char(c)),
{
    let chars = chars_of(value);
    let mut out: Vec<char> = Vec::new();
    let mut i: usize = 0;
    while i < chars.len()
        invariant
            i <= chars@.len(),
            chars@ == value@,
            out@ == chars@.take(i as int).map_values(|c: char| file_name_char(c)),
        decreases chars@.len() - i,
    {
        let c = chars[i];
        let keep = ('0' <= c && c <= '9') || ('a' <= c && c <= 'z') || ('A' <= c && c <= 'Z') || c
            == '.' || c == '-' || c == '_';
        out.push(if keep { c } else { '_' });
        i = i + 1;
        assert(out@ =~= chars@.take(i as int).map_values(|c: char| file_name_char(c)));
    }
    assert(chars@.take(chars@.len() as int) =~= chars@);
    string_of(&out)
}

proof fn lemma_no_char_find_none(s: Seq<char>, c: char)
    requires
        forall|i: int| 0 <= i < s.len() ==> s[i] != c,
    ensures
        find_seq(s, seq![c]) is None,
{
    lemma_find_from_facts(s, seq![c], 0);
    if let Some(i) = find_seq(s, seq![c]) {
        assert(s.subrange(i, i + 1)[0] == s[i]);
    }
}

proof fn lemma_find_char_at_end(s: Seq<char>, extra: Seq<char>, c: char)
    requires
        forall|i: int| 0 <= i < s.len() ==> s[i] != c,
        extra.len() > 0,
        extra[0] == c,
    ensures
        find_seq(s + extra, seq![c]) == Some(s.len() as int),
{
    let y = s + extra;
    lemma_find_from_facts(y, seq![c], 0);
    assert(y.subrange(s.len() as int, s.len() as int + 1) =~= seq![c]);
    assert(occurs_at(y, seq![c], s.len() as int));
    match find_seq(y, seq![c]) {
        Some(i) => {
            if i < s.len() {
                assert(y.subrange(i, i + 1)[0] == y[i]);
            }
        },
        None => {},
    }
}

proof fn lemma_trim_start_keeps(s: Seq<char>, c: char)
    requires
        forall|i: int| 0 <= i < s.len() ==> s[i] != c,
    ensures
        forall|i: int| 0 <= i < trim_start_seq(s).len() ==> trim_start_seq(s)[i] != c,
        trim_start_seq(s).len() > 0 ==> !is_ws(trim_start_seq(s)[0]),
    decreases s.len(),
{
    if s.len() > 0 && is_ws(s[0]) {
        lemma_trim_start_keeps(s.drop_first(), c);
    }
}

proof fn lemma_trim_end_keeps(s: Seq<char>, c: char)
    requires
        forall|i: int| 0 <= i < s.len() ==> s[i] != c,
    ensures
        forall|i: int| 0 <= i < trim_end_seq(s).len() ==> trim_end_seq(s)[i] != c,
        trim_end_seq(s).len() <= s.len(),
        forall|i: int| 0 <= i < trim_end_seq(s).len() ==> trim_end_seq(s)[i] == s[i],
    decreases s.len(),
{
    if s.len() > 0 && is_ws(s.last()) {
        lemma_trim_end_keeps(s.drop_last(), c);
        assert forall|i: int| 0 <= i < s.len() - 1 implies s.drop_last()[i] == s[i] by {}
    }
}

proof fn lemma_trim_end_char_keeps(s: Seq<char>, slash: char, c: char)
    requires
        forall|i: int| 0 <= i < s.len() ==> s[i] != c,
    ensures
        forall|i: int| 0 <= i < trim_end_char(s, slash).len() ==> trim_end_char(s, slash)[i] != c,
        forall|i: int| 0 <= i < trim_end_char(s, slash).len() ==> trim_end_char(s, slash)[i] == s[i],
        trim_end_char(s, slash).len() > 0 ==> trim_end_char(s, slash).last() != slash,
        trim_end_char(s, slash).len() <= s.len(),
    decreases s.len(),
{
    if s.len() > 0 && s.last() == slash {
        lemma_trim_end_char_keeps(s.drop_last(), slash, c);
        assert forall|i: int| 0 <= i < s.len() - 1 implies s.drop_last()[i] == s[i] by {}
    }
}

proof fn lemma_strip_has_none(v: Seq<char>)
    ensures
        forall|i: int| 0 <= i < strip_query_and_fragment_spec(v).len() ==> strip_query_and_fragment_spec(v)[i] != '?' && strip_query_and_fragment_spec(v)[i] != '#',
        strip_query_and_fragment_spec(v).len() <= v.len(),
{
    lemma_find_from_facts(v, seq!['?'], 0);
    lemma_find_from_facts(v, seq!['#'], 0);
    let r = strip_query_and_fragment_spec(v);
    assert forall|i: int| 0 <= i < r.len() implies r[i] != '?' && r[i] != '#' by {
        assert(r[i] == v[i]);
        assert(v.subrange(i, i + 1) =~= seq![v[i]]);
        if v[i] == '?' {
            assert(occurs_at(v, seq!['?'], i));
        }
        if v[i] == '#' {
            assert(occurs_at(v, seq!['#'], i));
        }
    }
}

/// Facts about the core of a base URL: no query or fragment marks, no
/// leading whitespace, no trailing slash.
proof fn lemma_core_facts(x: Seq<char>)
    ensures
        ({
            let t = base_url_core(x);
            &&& forall|i: int| 0 <= i < t.len() ==> t[i] != '?' && t[i] != '#'
            &&& t.len() > 0 ==> !is_ws(t[0]) && t.last() != '/'
        }),
{
    let a = trim_seq(x);
    let b = strip_query_and_fragment_spec(a);
    lemma_strip_has_none(a);
    let c0 = trim_start_seq(b);
    lemma_trim_start_keeps(b, '?');
    lemma_trim_start_keeps(b, '#');
    let c = trim_end_seq(c0);
    lemma_trim_end_keeps(c0, '?');
    lemma_trim_end_keeps(c0, '#');
    lemma_trim_end_char_keeps(c, '/', '?');
    lemma_trim_end_char_keeps(c, '/', '#');
    let t = trim_end_char(c, '/');
    if t.len() > 0 {
        assert(t[0] == c[0]);
        assert(c[0] == c0[0]);
    }
}

proof fn lemma_clean_is_own_core(y: Seq<char>)
    requires
        y.len() > 0,
        !is_ws(y[0]),
        !is_ws(y.last()),
        y.last() != '/',
        forall|i: int| 0 <= i < y.len() ==> y[i] != '?' && y[i] != '#',
    ensures
        base_url_core(y) == y,
{
    assert(trim_start_seq(y) == y);
    assert(trim_end_seq(y) == y);
    lemma_no_char_find_none(y, '?');
    lemma_no_char_find_none(y, '#');
    assert(y.take(y.len() as int) =~= y);
    assert(strip_query_and_fragment_spec(y) == y);
    assert(trim_end_char(y, '/') == y);
}

proof fn lemma_find_in_prefix(t: Seq<char>, extra: Seq<char>, needle: Seq<char>)
    requires
        find_seq(t, needle) is Some,
    ensures
        find_seq(t + extra, needle) == find_seq(t, needle),
{
    let y = t + extra;
    lemma_find_from_facts(t, needle, 0);
    lemma_find_from_facts(y, needle, 0);
    let p = find_seq(t, needle)->0;
    assert(y.subrange(p, p + needle.len()) =~= t.subrange(p, p + needle.len()));
    assert(occurs_at(y, needle, p));
    match find_seq(y, needle) {
        Some(q) => {
            if q < p {
                assert(y.subrange(q, q + needle.len()) =~= t.subrange(q, q + needle.len()));
                assert(occurs_at(t, needle, q));
            }
        },
        None => {},
    }
}

/// Normalizing a normalized base URL changes nothing: the `/dicom-web`
/// path is never added twice. (The input's core must not end in
/// whitespace, which a following slash can hide from the first trim.)
pub proof fn lemma_normalize_base_url_idempotent(x: Seq<char>)
    requires
        !(base_url_core(x).len() > 0 && is_ws(base_url_core(x).last())),
    ensures
        normalized_base_url(normalized_base_url(x)) == normalized_base_url(x),
{
    let t = base_url_core(x);
    lemma_core_facts(x);
    if t.len() == 0 {
        assert(trim_start_seq(t) == t);
        assert(trim_end_seq(t) == t);
        assert(find_seq(t, seq!['?']) is None);
        assert(find_seq(t, seq!['#']) is None);
        assert(t.take(0) =~= t);
        return;
    }
    let suffix = dicom_web_suffix();
    if !root_only_path(t) {
        lemma_clean_is_own_core(t);
        return;
    }
    let y = t + suffix;
    assert(y[0] == t[0]);
    assert(y.last() == 'b');
    assert forall|i: int| 0 <= i < y.len() implies y[i] != '?' && y[i] != '#' by {
        if i >= t.len() {
            assert(y[i] == suffix[i - t.len()]);
        }
    }
    lemma_clean_is_own_core(y);
    match find_seq(t, scheme_sep()) {
        Some(p) => {
            lemma_find_in_prefix(t, suffix, scheme_sep());
            lemma_find_from_facts(t, scheme_sep(), 0);
            let rest = t.skip(p + 3);
            assert(y.skip(p + 3) =~= rest + suffix);
            lemma_find_from_facts(rest, seq!['/'], 0);
            match find_seq(rest, seq!['/']) {
                Some(s) => {
                    assert(all_slashes(rest.skip(s)));
                    assert(rest.skip(s).last() == t.last());
                    assert(false);
                },
                None => {
                    assert forall|i: int| 0 <= i < rest.len() implies rest[i] != '/' by {
                        assert(rest.subrange(i, i + 1) =~= seq![rest[i]]);
                        if rest[i] == '/' {
                            assert(occurs_at(rest, seq!['/'], i));
                        }
                    }
                    lemma_find_char_at_end(rest, suffix, '/');
                    assert((rest + suffix).skip(rest.len() as int) =~= suffix);
                    assert(suffix[1] == 'd');
                    assert(!all_slashes(suffix));
                },
            }
        },
        None => {
            assert(find_seq(t, seq!['/']) is None);
            lemma_find_from_facts(t, seq!['/'], 0);
            assert forall|i: int| 0 <= i < t.len() implies t[i] != '/' by {
                assert(t.subrange(i, i + 1) =~= seq![t[i]]);
                if t[i] == '/' {
                    assert(occurs_at(t, seq!['/'], i));
                }
            }
            lemma_find_from_facts(t, scheme_sep(), 0);
            lemma_find_from_facts(y, scheme_sep(), 0);
            match find_seq(y, scheme_sep()) {
                Some(j) => {
                    assert(y.subrange(j, j + 3) == scheme_sep());
                    assert(y[j] == ':' && y[j + 1] == '/' && y[j + 2] == '/') by {
                        assert(y.subrange(j, j + 3)[0] == y[j]);
                        assert(y.subrange(j, j + 3)[1] == y[j + 1]);
                        assert(y.subrange(j, j + 3)[2] == y[j + 2]);
                    }
                    if j + 3 <= t.len() {
                        assert(t.subrange(j, j + 3) =~= y.subrange(j, j + 3));
                        assert(occurs_at(t, scheme_sep(), j));
                    } else if j + 1 < t.len() {
                        assert(y[j + 1] == t[j + 1]);
                    } else if j + 1 == t.len() {
                        assert(y[j + 2] == suffix[1]);
                    } else {
                        assert(y[j] == suffix[j - t.len()]);
                    }
                },
                None => {
                    lemma_find_char_at_end(t, suffix, '/');
                },
            }
        },
    }
}

} // verus!

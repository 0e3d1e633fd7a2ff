//! Launch requests: command-line arguments and `perspecta://` URLs that say
//! which local files or which DICOMweb study to open.
use vstd::prelude::*;
use vstd::string::StringExecFns;

use crate::dicomweb::strip_query_and_fragment_spec;
use crate::pct::{parse_usize, parse_usize_spec, percent_decode, percent_decoded};
use crate::text::{
    chars_of, contains_seq, eq_chars, find_char, find_seq, lemma_find_from_facts, lower_seq,
    occurs_at, slice_vec, split_char, split_once_seq, split_seq, starts_with_seq, string_of,
    to_lower, trim, trim_end_char, trim_end_matches, trim_seq,
};

verus! {

/// A request to open one DICOMweb study, series or instance.
#[derive(Debug, Clone, PartialEq, Eq)]
pub struct DicomWebLaunchRequest {
    pub base_url: String,
    pub study_uid: String,
    pub series_uid: Option<String>,
    pub instance_uid: Option<String>,
    pub username: Option<String>,
    pub password: Option<String>,
}

/// A request to open groups of DICOMweb series, one group on screen at a time.
#[derive(Debug, Clone, PartialEq, Eq)]
pub struct DicomWebGroupedLaunchRequest {
    pub base_url: String,
    pub study_uid: String,
    pub groups: Vec<Vec<String>>,
    pub open_group: usize,
    pub username: Option<String>,
    pub password: Option<String>,
}

/// What the viewer was asked to open.
#[derive(Debug, Clone, PartialEq, Eq)]
pub enum LaunchRequest {
    LocalPaths(Vec<String>),
    LocalGroups { groups: Vec<Vec<String>>, open_group: usize },
    DicomWebGroups(DicomWebGroupedLaunchRequest),
    DicomWeb(DicomWebLaunchRequest),
}

pub type Text = Seq<char>;

/// A launch request as mathematical values.
pub enum LaunchView {
    LocalPaths(Seq<Text>),
    LocalGroups(Seq<Seq<Text>>, usize),
    DicomWebGroups(Text, Text, Seq<Seq<Text>>, usize, Option<Text>, Option<Text>),
    DicomWeb(Text, Text, Option<Text>, Option<Text>, Option<Text>, Option<Text>),
}

pub open spec fn ov(o: Option<String>) -> Option<Text> {
    match o {
        Some(s) => Some(s@),
        None => None,
    }
}

pub open spec fn texts(v: Seq<String>) -> Seq<Text> {
    v.map_values(|s: String| s@)
}

pub open spec fn text_groups(v: Seq<Vec<String>>) -> Seq<Seq<Text>> {
    v.map_values(|g: Vec<String>| texts(g@))
}

pub open spec fn launch_view(r: LaunchRequest) -> LaunchView {
    match r {
        LaunchRequest::LocalPaths(p) => LaunchView::LocalPaths(texts(p@)),
        LaunchRequest::LocalGroups { groups, open_group } => LaunchView::LocalGroups(
            text_groups(groups@),
            open_group,
        ),
        LaunchRequest::DicomWebGroups(g) => LaunchView::DicomWebGroups(
            g.base_url@,
            g.study_uid@,
            text_groups(g.groups@),
            g.open_group,
            ov(g.username),
            ov(g.password),
        ),
        LaunchRequest::DicomWeb(d) => LaunchView::DicomWeb(
            d.base_url@,
            d.study_uid@,
            ov(d.series_uid),
            ov(d.instance_uid),
            ov(d.username),
            ov(d.password),
        ),
    }
}

/// What the query parameters of a launch URL have said so far.
pub struct Acc {
    pub raw: Seq<Text>,
    pub groups: Seq<Seq<Text>>,
    pub series_groups: Seq<Seq<Text>>,
    pub base: Option<Text>,
    pub study: Option<Text>,
    pub series: Option<Text>,
    pub instance: Option<Text>,
    pub user: Option<Text>,
    pub pass: Option<Text>,
    pub open_group: Option<usize>,
}

/// `split_path_list`: pieces between `|` when there is one, else between `,`.
pub open spec fn path_list(v: Text) -> Seq<Text> {
    if contains_seq(v, seq!['|']) {
        split_seq(v, '|')
    } else {
        split_seq(v, ',')
    }
}

/// The pieces that are not blank, as they are.
pub open spec fn nonblank(parts: Seq<Text>) -> Seq<Text>
    decreases parts.len(),
{
    if parts.len() == 0 {
        seq![]
    } else if trim_seq(parts.last()).len() > 0 {
        nonblank(parts.drop_last()).push(parts.last())
    } else {
        nonblank(parts.drop_last())
    }
}

/// The pieces that are not blank, trimmed.
pub open spec fn nonblank_trimmed(parts: Seq<Text>) -> Seq<Text>
    decreases parts.len(),
{
    if parts.len() == 0 {
        seq![]
    } else if trim_seq(parts.last()).len() > 0 {
        nonblank_trimmed(parts.drop_last()).push(trim_seq(parts.last()))
    } else {
        nonblank_trimmed(parts.drop_last())
    }
}

/// The non-empty path groups of a `groups=` value: groups between `;`.
pub open spec fn group_list(parts: Seq<Text>) -> Seq<Seq<Text>>
    decreases parts.len(),
{
    if parts.len() == 0 {
        seq![]
    } else {
        let g = nonblank(path_list(parts.last()));
        if g.len() > 0 {
            group_list(parts.drop_last()).push(g)
        } else {
            group_list(parts.drop_last())
        }
    }
}

/// A DICOMweb URL split into server base and the UIDs named in its path.
pub struct DicomWebValue {
    pub base: Text,
    pub study: Option<Text>,
    pub series: Option<Text>,
    pub instance: Option<Text>,
}

/// Walks path segments: `studies/X`, `series/X` and `instances/X` each set a UID.
pub open spec fn walk_segments(segs: Seq<Text>, i: int, acc: DicomWebValue) -> DicomWebValue
    decreases segs.len() - i,
{
    if i < 0 || i >= segs.len() {
        acc
    } else {
        let w = lower_seq(segs[i]);
        if i + 1 < segs.len() && w == "studies"@ {
            walk_segments(segs, i + 2, DicomWebValue { study: Some(segs[i + 1]), ..acc })
        } else if i + 1 < segs.len() && w == "series"@ {
            walk_segments(segs, i + 2, DicomWebValue { series: Some(segs[i + 1]), ..acc })
        } else if i + 1 < segs.len() && w == "instances"@ {
            walk_segments(segs, i + 2, DicomWebValue { instance: Some(segs[i + 1]), ..acc })
        } else {
            walk_segments(segs, i + 1, acc)
        }
    }
}

pub open spec fn studies_marker() -> Text {
    "/studies/"@
}

/// `parse_dicomweb_value`: the base is what precedes `/studies/` (any case),
/// without trailing slashes; the UIDs come from the segments after it.
pub open spec fn dicomweb_value(value: Text) -> DicomWebValue {
    let w = trim_end_char(strip_query_and_fragment_spec(trim_seq(value)), '/');
    let none = DicomWebValue { base: w, study: None, series: None, instance: None };
    if w.len() == 0 {
        none
    } else {
        match find_seq(lower_seq(w), studies_marker()) {
            None => none,
            Some(idx) => walk_segments(
                nonblank(split_seq(w.skip(idx + 1), '/')),
                0,
                DicomWebValue {
                    base: trim_end_char(w.take(idx), '/'),
                    study: None,
                    series: None,
                    instance: None,
                },
            ),
        }
    }
}

pub open spec fn first_some(a: Option<Text>, b: Option<Text>) -> Option<Text> {
    match a {
        Some(x) => Some(x),
        None => b,
    }
}

/// One query parameter applied, its value already percent-decoded.
pub open spec fn apply_kv(acc: Acc, key: Text, v: Text) -> Result<Acc, LaunchFault> {
    let tv = trim_seq(v);
    if key == "path"@ || key == "file"@ {
        if tv.len() > 0 {
            Ok(Acc { raw: acc.raw.push(v), ..acc })
        } else {
            Ok(acc)
        }
    } else if key == "paths"@ || key == "files"@ {
        Ok(Acc { raw: acc.raw + nonblank(path_list(v)), ..acc })
    } else if key == "group"@ {
        let g = nonblank(path_list(v));
        if g.len() > 0 {
            Ok(Acc { groups: acc.groups.push(g), ..acc })
        } else {
            Ok(acc)
        }
    } else if key == "groups"@ {
        Ok(Acc { groups: acc.groups + group_list(split_seq(v, ';')), ..acc })
    } else if key == "group_series"@ || key == "groupseries"@ || key == "series_group"@ {
        let g = nonblank_trimmed(path_list(v));
        if g.len() > 0 {
            Ok(Acc { series_groups: acc.series_groups.push(g), ..acc })
        } else {
            Ok(acc)
        }
    } else if key == "open_group"@ || key == "opengroup"@ || key == "active_group"@ || key
        == "group_index"@ {
        if tv.len() == 0 {
            Ok(acc)
        } else {
            match parse_usize_spec(tv) {
                Some(n) => Ok(Acc { open_group: Some(n), ..acc }),
                None => Err(LaunchFault::OpenGroup),
            }
        }
    } else if key == "dicomweb"@ || key == "dicomweb_url"@ || key == "base_url"@ || key
        == "wado_base"@ {
        if tv.len() == 0 {
            Ok(acc)
        } else {
            let p = dicomweb_value(tv);
            if p.base.len() == 0 {
                Err(LaunchFault::DicomWebBase)
            } else {
                Ok(
                    Acc {
                        base: Some(p.base),
                        study: first_some(acc.study, p.study),
                        series: first_some(acc.series, p.series),
                        instance: first_some(acc.instance, p.instance),
                        ..acc
                    },
                )
            }
        }
    } else if key == "study"@ || key == "studyuid"@ || key == "studyinstanceuid"@ || key
        == "study_instance_uid"@ {
        if tv.len() > 0 {
            Ok(Acc { study: Some(tv), ..acc })
        } else {
            Ok(acc)
        }
    } else if key == "series"@ || key == "seriesuid"@ || key == "seriesinstanceuid"@ || key
        == "series_instance_uid"@ {
        if tv.len() > 0 {
            Ok(Acc { series: Some(tv), ..acc })
        } else {
            Ok(acc)
        }
    } else if key == "instance"@ || key == "instanceuid"@ || key == "sopinstanceuid"@ || key
        == "sop_instance_uid"@ {
        if tv.len() > 0 {
            Ok(Acc { instance: Some(tv), ..acc })
        } else {
            Ok(acc)
        }
    } else if key == "user"@ || key == "username"@ || key == "dicomweb_user"@ || key
        == "dicomweb_username"@ {
        if tv.len() > 0 {
            Ok(Acc { user: Some(tv), ..acc })
        } else {
            Ok(acc)
        }
    } else if key == "pass"@ || key == "password"@ || key == "dicomweb_pass"@ || key
        == "dicomweb_password"@ {
        if tv.len() > 0 {
            Ok(Acc { pass: Some(tv), ..acc })
        } else {
            Ok(acc)
        }
    } else if key == "auth"@ || key == "dicomweb_auth"@ {
        if tv.len() == 0 {
            Ok(acc)
        } else {
            match split_once_seq(tv, ':') {
                None => Err(LaunchFault::Auth),
                Some((u, p)) => Ok(
                    Acc {
                        user: if trim_seq(u).len() > 0 {
                            Some(trim_seq(u))
                        } else {
                            acc.user
                        },
                        pass: if trim_seq(p).len() > 0 {
                            Some(trim_seq(p))
                        } else {
                            acc.pass
                        },
                        ..acc
                    },
                ),
            }
        }
    } else {
        Ok(acc)
    }
}

/// One `key=value` pair of the query applied (an empty pair does nothing;
/// a pair without `=` has an empty value; a bad encoding fails).
pub open spec fn apply_pair(acc: Acc, pair: Text) -> Result<Acc, LaunchFault> {
    if pair.len() == 0 {
        Ok(acc)
    } else {
        let kv = match split_once_seq(pair, '=') {
            Some(p) => p,
            None => (pair, seq![]),
        };
        match percent_decoded(kv.1) {
            None => Err(LaunchFault::Encoding),
            Some(dv) => apply_kv(acc, lower_seq(trim_seq(kv.0)), dv),
        }
    }
}

/// The first `n` pairs applied in order; the first failure stops.
pub open spec fn apply_pairs(acc: Acc, pairs: Seq<Text>, n: int) -> Result<Acc, LaunchFault>
    decreases n,
{
    if n <= 0 {
        Ok(acc)
    } else {
        match apply_pairs(acc, pairs, n - 1) {
            Err(f) => Err(f),
            Ok(a) => apply_pair(a, pairs[n - 1]),
        }
    }
}

pub open spec fn group_sizes_ok(groups: Seq<Seq<Text>>) -> bool {
    forall|i: int| 0 <= i < groups.len() ==> #[trigger] groups[i].len() == 1 || groups[i].len() == 4
}

pub open spec fn clamp_open_group(open_group: Option<usize>, len: nat) -> usize {
    let g = match open_group {
        Some(n) => n,
        None => 0,
    };
    if g as int <= len - 1 {
        g
    } else {
        (len - 1) as usize
    }
}

/// Why a launch URL is refused.
pub enum LaunchFault {
    Scheme,
    Encoding,
    OpenGroup,
    DicomWebBase,
    Auth,
    GroupsWithPaths,
    GroupsWithDicomWeb,
    GroupsWithSeriesGroups,
    GroupSize,
    SeriesGroupsWithPaths,
    SeriesGroupsWithUids,
    Credentials,
    SeriesGroupsNeedDicomWeb,
    SeriesGroupsNeedStudy,
    SeriesGroupSize,
    NeedsStudy,
    CredentialsWithoutDicomWeb,
    NoPath,
}

/// The message of each refusal. A bad encoding has one of two messages:
/// an ill-formed percent escape, or decoded bytes that are not UTF-8.
pub open spec fn fault_message(f: LaunchFault, m: Text) -> bool {
    match f {
        LaunchFault::Scheme => m == "URL must start with perspecta://"@,
        LaunchFault::Encoding => m == "Invalid percent-encoding in URL."@ || m
            == "URL contains invalid UTF-8 after decoding."@,
        LaunchFault::OpenGroup => m == "open_group must be a non-negative integer."@,
        LaunchFault::DicomWebBase => m == "DICOMweb URL must include a server base URL."@,
        LaunchFault::Auth => m == "auth must be encoded as username:password (percent-encoded)."@,
        LaunchFault::GroupsWithPaths => m
            == "Cannot mix grouped launch (group=...) with path=/paths= parameters."@,
        LaunchFault::GroupsWithDicomWeb => m
            == "Cannot mix grouped local launch (group=...) with dicomweb=."@,
        LaunchFault::GroupsWithSeriesGroups => m
            == "Cannot mix grouped local launch (group=...) with grouped DICOMweb launch (group_series=...)."@,
        LaunchFault::GroupSize => m == "Each group must contain exactly 1 or 4 DICOM paths."@,
        LaunchFault::SeriesGroupsWithPaths => m
            == "Cannot mix grouped DICOMweb launch (group_series=...) with path=/paths= parameters."@,
        LaunchFault::SeriesGroupsWithUids => m
            == "Cannot mix grouped DICOMweb launch (group_series=...) with series=/instance= parameters."@,
        LaunchFault::Credentials => m
            == "DICOMweb credentials must include both user and password."@,
        LaunchFault::SeriesGroupsNeedDicomWeb => m
            == "Grouped DICOMweb launch requires dicomweb= URL and study UID."@,
        LaunchFault::SeriesGroupsNeedStudy => m
            == "Grouped DICOMweb launch requires study UID via study=..."@,
        LaunchFault::SeriesGroupSize => m
            == "Each group_series group must contain exactly 1 or 4 series UIDs."@,
        LaunchFault::NeedsStudy => m == "DICOMweb launch requires 'study' (StudyInstanceUID)."@,
        LaunchFault::CredentialsWithoutDicomWeb => m
            == "DICOMweb credentials were provided without dicomweb= URL."@,
        LaunchFault::NoPath => m
            == "No DICOM path found in URL. Use path=..., file=..., paths=..., or files=..."@,
    }
}

/// The request that the collected parameters make, or the first conflict
/// or missing part, checked in a fixed order.
pub open spec fn finish(a: Acc) -> Result<LaunchView, LaunchFault> {
    if a.groups.len() > 0 {
        if a.raw.len() > 0 {
            Err(LaunchFault::GroupsWithPaths)
        } else if a.base is Some {
            Err(LaunchFault::GroupsWithDicomWeb)
        } else if a.series_groups.len() > 0 {
            Err(LaunchFault::GroupsWithSeriesGroups)
        } else if !group_sizes_ok(a.groups) {
            Err(LaunchFault::GroupSize)
        } else {
            Ok(LaunchView::LocalGroups(a.groups, clamp_open_group(a.open_group, a.groups.len())))
        }
    } else if a.series_groups.len() > 0 {
        if a.raw.len() > 0 {
            Err(LaunchFault::SeriesGroupsWithPaths)
        } else if a.series is Some || a.instance is Some {
            Err(LaunchFault::SeriesGroupsWithUids)
        } else if (a.user is Some) != (a.pass is Some) {
            Err(LaunchFault::Credentials)
        } else if a.base is None {
            Err(LaunchFault::SeriesGroupsNeedDicomWeb)
        } else if a.study is None {
            Err(LaunchFault::SeriesGroupsNeedStudy)
        } else if !group_sizes_ok(a.series_groups) {
            Err(LaunchFault::SeriesGroupSize)
        } else {
            Ok(
                LaunchView::DicomWebGroups(
                    a.base->0,
                    a.study->0,
                    a.series_groups,
                    clamp_open_group(a.open_group, a.series_groups.len()),
                    a.user,
                    a.pass,
                ),
            )
        }
    } else if a.base is Some {
        if (a.user is Some) != (a.pass is Some) {
            Err(LaunchFault::Credentials)
        } else if a.study is None {
            Err(LaunchFault::NeedsStudy)
        } else {
            Ok(LaunchView::DicomWeb(a.base->0, a.study->0, a.series, a.instance, a.user, a.pass))
        }
    } else if a.user is Some || a.pass is Some {
        Err(LaunchFault::CredentialsWithoutDicomWeb)
    } else if a.raw.len() == 0 {
        Err(LaunchFault::NoPath)
    } else {
        Ok(LaunchView::LocalPaths(a.raw))
    }
}

/// The path that the location part of a URL names, if any: blank, `/`,
/// `open` and `open/` with a blank rest name none.
pub open spec fn location_path(location: Text) -> Result<Option<Text>, LaunchFault> {
    let t = trim_seq(location);
    if t.len() == 0 || t == "/"@ || lower_seq(t) == "open"@ {
        Ok(None)
    } else if starts_with_seq(lower_seq(t), "open/"@) {
        match percent_decoded(t.skip(5)) {
            None => Err(LaunchFault::Encoding),
            Some(d) => if trim_seq(d).len() == 0 {
                Ok(None)
            } else {
                Ok(Some(d))
            },
        }
    } else {
        match percent_decoded(t) {
            None => Err(LaunchFault::Encoding),
            Some(d) => Ok(Some(d)),
        }
    }
}

/// What follows the `perspecta://` scheme (matched without regard to ASCII case).
pub open spec fn after_scheme(uri: Text) -> Option<Text> {
    if uri.len() >= 12 && lower_seq(uri.take(12)) == "perspecta://"@ {
        Some(uri.skip(12))
    } else {
        None
    }
}

pub open spec fn empty_acc(raw: Seq<Text>) -> Acc {
    Acc {
        raw,
        groups: seq![],
        series_groups: seq![],
        base: None,
        study: None,
        series: None,
        instance: None,
        user: None,
        pass: None,
        open_group: None,
    }
}

/// The launch request that a `perspecta://` URL makes.
pub open spec fn launch_of_uri(uri: Text) -> Result<LaunchView, LaunchFault> {
    match after_scheme(uri) {
        None => Err(LaunchFault::Scheme),
        Some(rest) => {
            let (location, query) = match split_once_seq(rest, '?') {
                Some((l, q)) => (l, Some(q)),
                None => (rest, None),
            };
            match location_path(location) {
                Err(f) => Err(f),
                Ok(lp) => {
                    let acc0 = empty_acc(
                        match lp {
                            Some(p) => seq![p],
                            None => seq![],
                        },
                    );
                    let acc = match query {
                        None => Ok(acc0),
                        Some(q) => apply_pairs(acc0, split_seq(q, '&'), split_seq(q, '&').len() as int),
                    };
                    match acc {
                        Err(f) => Err(f),
                        Ok(a) => finish(a),
                    }
                },
            }
        },
    }
}

/// A parse result against its expected outcome: the same request, or a
/// failure whose message is that of the expected refusal.
pub open spec fn launch_outcome(
    r: Result<LaunchRequest, String>,
    expected: Result<LaunchView, LaunchFault>,
) -> bool {
    match r {
        Ok(l) => expected == Ok::<LaunchView, LaunchFault>(launch_view(l)),
        Err(m) => expected matches Err(f) && fault_message(f, m@),
    }
}

pub open spec fn cv(v: Seq<Vec<char>>) -> Seq<Text> {
    v.map_values(|x: Vec<char>| x@)
}

pub open spec fn cgv(v: Seq<Vec<Vec<char>>>) -> Seq<Seq<Text>> {
    v.map_values(|g: Vec<Vec<char>>| cv(g@))
}

pub open spec fn ocv(o: Option<Vec<char>>) -> Option<Text> {
    match o {
        Some(x) => Some(x@),
        None => None,
    }
}

struct AccExec {
    raw: Vec<Vec<char>>,
    groups: Vec<Vec<Vec<char>>>,
    series_groups: Vec<Vec<Vec<char>>>,
    base: Option<Vec<char>>,
    study: Option<Vec<char>>,
    series: Option<Vec<char>>,
    instance: Option<Vec<char>>,
    user: Option<Vec<char>>,
    pass: Option<Vec<char>>,
    open_group: Option<usize>,
}

spec fn acc_view(a: AccExec) -> Acc {
    Acc {
        raw: cv(a.raw@),
        groups: cgv(a.groups@),
        series_groups: cgv(a.series_groups@),
        base: ocv(a.base),
        study: ocv(a.study),
        series: ocv(a.series),
        instance: ocv(a.instance),
        user: ocv(a.user),
        pass: ocv(a.pass),
        open_group: a.open_group,
    }
}

fn copy_chars(x: &[char]) -> (r: Vec<char>)
    ensures
        r@ == x@,
{
    let r = slice_vec(x, 0, x.len());
    assert(x@.subrange(0, x@.len() as int) =~= x@);
    r
}

fn copy_paths(v: &Vec<Vec<char>>) -> (r: Vec<Vec<char>>)
    ensures
        cv(r@) == cv(v@),
{
    let mut out: Vec<Vec<char>> = Vec::new();
    let mut k: usize = 0;
    while k < v.len()
        invariant
            k <= v@.len(),
            cv(out@) == cv(v@).take(k as int),
        decreases v@.len() - k,
    {
        let ghost prev = out@;
        let c = copy_chars(&v[k]);
        out.push(c);
        assert(cv(out@) =~= cv(prev).push(c@));
        assert(cv(v@).take(k + 1) =~= cv(v@).take(k as int).push(v@[k as int]@));
        k = k + 1;
    }
    assert(cv(v@).take(v@.len() as int) =~= cv(v@));
    out
}

fn key_is(k: &[char], lit: &str) -> (r: bool)
    ensures
        r == (k@ == lit@),
{
    let l = chars_of(lit);
    eq_chars(k, &l)
}

fn has_char(v: &[char], c: char) -> (r: bool)
    ensures
        r == contains_seq(v@, seq![c]),
{
    find_char(v, c).is_some()
}

fn path_list_exec(v: &[char]) -> (r: Vec<Vec<char>>)
    ensures
        cv(r@) == path_list(v@),
{
    if has_char(v, '|') {
        split_char(v, '|')
    } else {
        split_char(v, ',')
    }
}

fn nonblank_exec(parts: &Vec<Vec<char>>, trimmed: bool) -> (r: Vec<Vec<char>>)
    ensures
        !trimmed ==> cv(r@) == nonblank(cv(parts@)),
        trimmed ==> cv(r@) == nonblank_trimmed(cv(parts@)),
{
    let ghost pv = cv(parts@);
    let mut out: Vec<Vec<char>> = Vec::new();
    let mut k: usize = 0;
    while k < parts.len()
        invariant
            k <= parts@.len(),
            pv == cv(parts@),
            !trimmed ==> cv(out@) == nonblank(pv.take(k as int)),
            trimmed ==> cv(out@) == nonblank_trimmed(pv.take(k as int)),
        decreases parts@.len() - k,
    {
        proof {
            assert(pv.take(k + 1).drop_last() =~= pv.take(k as int));
            assert(pv.take(k + 1).last() == parts@[k as int]@);
        }
        let t = trim(&parts[k]);
        if t.len() > 0 {
            if trimmed {
                out.push(t);
            } else {
                out.push(copy_chars(&parts[k]));
            }
            assert(trimmed ==> cv(out@) =~= nonblank_trimmed(pv.take(k as int)).push(t@));
            assert(!trimmed ==> cv(out@) =~= nonblank(pv.take(k as int)).push(parts@[k as int]@));
        }
        k = k + 1;
    }
    assert(pv.take(parts@.len() as int) =~= pv);
    out
}

fn group_list_exec(parts: &Vec<Vec<char>>) -> (r: Vec<Vec<Vec<char>>>)
    ensures
        cgv(r@) == group_list(cv(parts@)),
{
    let ghost pv = cv(parts@);
    let mut out: Vec<Vec<Vec<char>>> = Vec::new();
    let mut k: usize = 0;
    while k < parts.len()
        invariant
            k <= parts@.len(),
            pv == cv(parts@),
            cgv(out@) == group_list(pv.take(k as int)),
        decreases parts@.len() - k,
    {
        proof {
            assert(pv.take(k + 1).drop_last() =~= pv.take(k as int));
            assert(pv.take(k + 1).last() == parts@[k as int]@);
        }
        let pl = path_list_exec(&parts[k]);
        let g = nonblank_exec(&pl, false);
        if g.len() > 0 {
            out.push(g);
            assert(cgv(out@) =~= group_list(pv.take(k as int)).push(cv(g@)));
        }
        k = k + 1;
    }
    assert(pv.take(parts@.len() as int) =~= pv);
    out
}

fn append_all(a: Vec<Vec<char>>, b: Vec<Vec<char>>) -> (r: Vec<Vec<char>>)
    ensures
        cv(r@) == cv(a@) + cv(b@),
{
    let mut out = a;
    let ghost a0 = cv(out@);
    let mut k: usize = 0;
    while k < b.len()
        invariant
            k <= b@.len(),
            cv(out@) == a0 + cv(b@).take(k as int),
        decreases b@.len() - k,
    {
        let ghost prev = out@;
        let c = copy_chars(&b[k]);
        out.push(c);
        assert(cv(out@) =~= cv(prev).push(c@));
        assert(cv(b@).take(k + 1) =~= cv(b@).take(k as int).push(b@[k as int]@));
        k = k + 1;
        assert(cv(out@) =~= a0 + cv(b@).take(k as int));
    }
    assert(cv(b@).take(b@.len() as int) =~= cv(b@));
    out
}

fn append_groups(a: Vec<Vec<Vec<char>>>, b: Vec<Vec<Vec<char>>>) -> (r: Vec<Vec<Vec<char>>>)
    ensures
        cgv(r@) == cgv(a@) + cgv(b@),
{
    let mut out = a;
    let ghost a0 = cgv(out@);
    let mut k: usize = 0;
    while k < b.len()
        invariant
            k <= b@.len(),
            cgv(out@) == a0 + cgv(b@).take(k as int),
        decreases b@.len() - k,
    {
        let ghost prev = out@;
        let c = copy_paths(&b[k]);
        out.push(c);
        assert(cgv(out@) =~= cgv(prev).push(cv(c@)));
        assert(cgv(b@).take(k + 1) =~= cgv(b@).take(k as int).push(cv(b@[k as int]@)));
        k = k + 1;
        assert(cgv(out@) =~= a0 + cgv(b@).take(k as int));
    }
    assert(cgv(b@).take(b@.len() as int) =~= cgv(b@));
    out
}

fn walk_segments_exec(
    segs: &Vec<Vec<char>>,
    base: Vec<char>,
) -> (r: (Vec<char>, Option<Vec<char>>, Option<Vec<char>>, Option<Vec<char>>))
    ensures
        ({
            let w = walk_segments(
                cv(segs@),
                0,
                DicomWebValue { base: base@, study: None, series: None, instance: None },
            );
            r.0@ == w.base && ocv(r.1) == w.study && ocv(r.2) == w.series && ocv(r.3) == w.instance
        }),
{
    let ghost sv = cv(segs@);
    let ghost start = DicomWebValue { base: base@, study: None, series: None, instance: None };
    let mut study: Option<Vec<char>> = None;
    let mut series: Option<Vec<char>> = None;
    let mut instance: Option<Vec<char>> = None;
    let mut i: usize = 0;
    while i < segs.len()
        invariant
            i <= segs@.len(),
            sv == cv(segs@),
            walk_segments(sv, 0, start) == walk_segments(
                sv,
                i as int,
                DicomWebValue { base: base@, study: ocv(study), series: ocv(series), instance: ocv(instance) },
            ),
        decreases segs@.len() - i,
    {
        let w = to_lower(&segs[i]);
        let has_next = i + 1 < segs.len();
        if has_next && key_is(&w, "studies") {
            study = Some(copy_chars(&segs[i + 1]));
            i = i + 2;
        } else if has_next && key_is(&w, "series") {
            series = Some(copy_chars(&segs[i + 1]));
            i = i + 2;
        } else if has_next && key_is(&w, "instances") {
            instance = Some(copy_chars(&segs[i + 1]));
            i = i + 2;
        } else {
            i = i + 1;
        }
    }
    (base, study, series, instance)
}

fn dicomweb_value_exec(value: &[char]) -> (r: (Vec<char>, Option<Vec<char>>, Option<Vec<char>>, Option<Vec<char>>))
    ensures
        ({
            let w = dicomweb_value(value@);
            r.0@ == w.base && ocv(r.1) == w.study && ocv(r.2) == w.series && ocv(r.3) == w.instance
        }),
{
    let t = trim(value);
    let q = crate::dicomweb::strip_query_and_fragment(&t);
    let w = trim_end_matches(&q, '/');
    if w.len() == 0 {
        return (w, None, None, None);
    }
    let lower = to_lower(&w);
    let marker = chars_of("/studies/");
    proof {
        reveal_strlit("/studies/");
    }
    assert(marker@.len() == 9);
    match crate::text::find(&lower, &marker) {
        None => (w, None, None, None),
        Some(idx) => {
            proof {
                lemma_find_from_facts(lower@, marker@, 0);
                assert(occurs_at(lower@, marker@, idx as int));
            }
            let wl = w.len();
            assert(lower@.len() == w@.len());
            let head = slice_vec(&w, 0, idx);
            let base = trim_end_matches(&head, '/');
            let rem = slice_vec(&w, idx + 1, wl);
            let parts = split_char(&rem, '/');
            let segs = nonblank_exec(&parts, false);
            proof {
                assert(head@ =~= w@.take(idx as int));
                assert(rem@ =~= w@.skip(idx + 1));
            }
            walk_segments_exec(&segs, base)
        },
    }
}

fn decode_chars(v: &[char]) -> (r: Result<Vec<char>, String>)
    ensures
        match r {
            Ok(d) => percent_decoded(v@) == Some(d@),
            Err(m) => percent_decoded(v@) is None && fault_message(LaunchFault::Encoding, m@),
        },
{
    let s = string_of(v);
    match percent_decode(s.as_str()) {
        Ok(d) => Ok(chars_of(d.as_str())),
        Err(e) => Err(e),
    }
}

fn opt_clone(o: &Option<Vec<char>>) -> (r: Option<Vec<char>>)
    ensures
        ocv(r) == ocv(*o),
{
    match o {
        Some(x) => Some(copy_chars(x)),
        None => None,
    }
}

fn first_some_exec(a: Option<Vec<char>>, b: Option<Vec<char>>) -> (r: Option<Vec<char>>)
    ensures
        ocv(r) == first_some(ocv(a), ocv(b)),
{
    match a {
        Some(x) => Some(x),
        None => b,
    }
}

fn err(msg: &str) -> (r: String)
    ensures
        r@ == msg@,
{
    String::from_str(msg)
}

fn apply_kv_exec(acc: AccExec, key: &[char], v: &[char]) -> (r: Result<AccExec, String>)
    ensures
        match apply_kv(acc_view(acc), key@, v@) {
            Ok(a) => r matches Ok(x) && acc_view(x) == a,
            Err(f) => r matches Err(m) && fault_message(f, m@),
        },
{
    let tv = trim(v);
    let blank = tv.len() == 0;
    let mut acc = acc;
    let ghost a0 = acc_view(acc);
    if key_is(key, "path") || key_is(key, "file") {
        if !blank {
            acc.raw.push(slice_vec(v, 0, v.len()));
            assert(v@.subrange(0, v@.len() as int) =~= v@);
            assert(acc_view(acc).raw =~= a0.raw.push(v@));
        }
        assert(acc_view(acc) =~= apply_kv(a0, key@, v@)->Ok_0);
        return Ok(acc);
    }
    if key_is(key, "paths") || key_is(key, "files") {
        let pl = path_list_exec(v);
        let nb = nonblank_exec(&pl, false);
        let raw = append_all(acc.raw, nb);
        let acc = AccExec { raw, ..acc };
        assert(acc_view(acc) =~= apply_kv(a0, key@, v@)->Ok_0);
        return Ok(acc);
    }
    if key_is(key, "group") {
        let pl = path_list_exec(v);
        let g = nonblank_exec(&pl, false);
        if g.len() > 0 {
            acc.groups.push(g);
            assert(acc_view(acc).groups =~= a0.groups.push(nonblank(path_list(v@))));
        }
        assert(acc_view(acc) =~= apply_kv(a0, key@, v@)->Ok_0);
        return Ok(acc);
    }
    if key_is(key, "groups") {
        let parts = split_char(v, ';');
        let gl = group_list_exec(&parts);
        let groups = append_groups(acc.groups, gl);
        let acc = AccExec { groups, ..acc };
        assert(acc_view(acc) =~= apply_kv(a0, key@, v@)->Ok_0);
        return Ok(acc);
    }
    if key_is(key, "group_series") || key_is(key, "groupseries") || key_is(key, "series_group") {
        let pl = path_list_exec(v);
        let g = nonblank_exec(&pl, true);
        if g.len() > 0 {
            acc.series_groups.push(g);
            assert(acc_view(acc).series_groups =~= a0.series_groups.push(nonblank_trimmed(path_list(v@))));
        }
        assert(acc_view(acc) =~= apply_kv(a0, key@, v@)->Ok_0);
        return Ok(acc);
    }
    if key_is(key, "open_group") || key_is(key, "opengroup") || key_is(key, "active_group")
        || key_is(key, "group_index") {
        if blank {
            return Ok(acc);
        }
        match parse_usize(&tv) {
            Some(n) => {
                let acc = AccExec { open_group: Some(n), ..acc };
                assert(acc_view(acc) =~= apply_kv(a0, key@, v@)->Ok_0);
                return Ok(acc);
            },
            None => {
                return Err(err("open_group must be a non-negative integer."));
            },
        }
    }
    if key_is(key, "dicomweb") || key_is(key, "dicomweb_url") || key_is(key, "base_url")
        || key_is(key, "wado_base") {
        if blank {
            return Ok(acc);
        }
        let (base, study, series, instance) = dicomweb_value_exec(&tv);
        if base.len() == 0 {
            return Err(err("DICOMweb URL must include a server base URL."));
        }
        let acc = AccExec {
            base: Some(base),
            study: first_some_exec(acc.study, study),
            series: first_some_exec(acc.series, series),
            instance: first_some_exec(acc.instance, instance),
            ..acc
        };
        assert(acc_view(acc) =~= apply_kv(a0, key@, v@)->Ok_0);
        return Ok(acc);
    }
    if key_is(key, "study") || key_is(key, "studyuid") || key_is(key, "studyinstanceuid")
        || key_is(key, "study_instance_uid") {
        if blank {
            return Ok(acc);
        }
        let acc = AccExec { study: Some(tv), ..acc };
        assert(acc_view(acc) =~= apply_kv(a0, key@, v@)->Ok_0);
        return Ok(acc);
    }
    if key_is(key, "series") || key_is(key, "seriesuid") || key_is(key, "seriesinstanceuid")
        || key_is(key, "series_instance_uid") {
        if blank {
            return Ok(acc);
        }
        let acc = AccExec { series: Some(tv), ..acc };
        assert(acc_view(acc) =~= apply_kv(a0, key@, v@)->Ok_0);
        return Ok(acc);
    }
    if key_is(key, "instance") || key_is(key, "instanceuid") || key_is(key, "sopinstanceuid")
        || key_is(key, "sop_instance_uid") {
        if blank {
            return Ok(acc);
        }
        let acc = AccExec { instance: Some(tv), ..acc };
        assert(acc_view(acc) =~= apply_kv(a0, key@, v@)->Ok_0);
        return Ok(acc);
    }
    if key_is(key, "user") || key_is(key, "username") || key_is(key, "dicomweb_user")
        || key_is(key, "dicomweb_username") {
        if blank {
            return Ok(acc);
        }
        let acc = AccExec { user: Some(tv), ..acc };
        assert(acc_view(acc) =~= apply_kv(a0, key@, v@)->Ok_0);
        return Ok(acc);
    }
    if key_is(key, "pass") || key_is(key, "password") || key_is(key, "dicomweb_pass")
        || key_is(key, "dicomweb_password") {
        if blank {
            return Ok(acc);
        }
        let acc = AccExec { pass: Some(tv), ..acc };
        assert(acc_view(acc) =~= apply_kv(a0, key@, v@)->Ok_0);
        return Ok(acc);
    }
    if key_is(key, "auth") || key_is(key, "dicomweb_auth") {
        if blank {
            return Ok(acc);
        }
        match find_char(&tv, ':') {
            None => {
                return Err(err("auth must be encoded as username:password (percent-encoded)."));
            },
            Some(c) => {
                proof {
                    lemma_find_from_facts(tv@, seq![':'], 0);
                    assert(occurs_at(tv@, seq![':'], c as int));
                }
                let tl = tv.len();
                let u = slice_vec(&tv, 0, c);
                let p = slice_vec(&tv, c + 1, tl);
                assert(u@ =~= tv@.take(c as int));
                assert(p@ =~= tv@.skip(c + 1));
                let ut = trim(&u);
                let pt = trim(&p);
                let user = if ut.len() > 0 {
                    Some(ut)
                } else {
                    acc.user
                };
                let pass = if pt.len() > 0 {
                    Some(pt)
                } else {
                    acc.pass
                };
                let acc = AccExec { user, pass, ..acc };
                assert(acc_view(acc) =~= apply_kv(a0, key@, v@)->Ok_0);
                return Ok(acc);
            },
        }
    }
    Ok(acc)
}

fn apply_pair_exec(acc: AccExec, pair: &[char]) -> (r: Result<AccExec, String>)
    ensures
        match apply_pair(acc_view(acc), pair@) {
            Ok(a) => r matches Ok(x) && acc_view(x) == a,
            Err(f) => r matches Err(m) && fault_message(f, m@),
        },
{
    if pair.len() == 0 {
        return Ok(acc);
    }
    let pl = pair.len();
    let (k0, v0) = match find_char(pair, '=') {
        Some(e) => {
            proof {
                lemma_find_from_facts(pair@, seq!['='], 0);
                assert(occurs_at(pair@, seq!['='], e as int));
            }
            let k = slice_vec(pair, 0, e);
            let v = slice_vec(pair, e + 1, pl);
            assert(k@ =~= pair@.take(e as int));
            assert(v@ =~= pair@.skip(e + 1));
            (k, v)
        },
        None => (copy_chars(pair), Vec::new()),
    };
    assert(v0@ =~= (match split_once_seq(pair@, '=') {
        Some(p) => p,
        None => (pair@, seq![]),
    }).1);
    let dv = match decode_chars(&v0) {
        Ok(d) => d,
        Err(e) => {
            return Err(e);
        },
    };
    let kt = trim(&k0);
    let key = to_lower(&kt);
    apply_kv_exec(acc, &key, &dv)
}

fn all_sizes_ok(groups: &Vec<Vec<Vec<char>>>) -> (r: bool)
    ensures
        r == group_sizes_ok(cgv(groups@)),
{
    let mut k: usize = 0;
    while k < groups.len()
        invariant
            k <= groups@.len(),
            forall|i: int| 0 <= i < k ==> #[trigger] cgv(groups@)[i].len() == 1 || cgv(groups@)[i].len() == 4,
        decreases groups@.len() - k,
    {
        let n = groups[k].len();
        if n != 1 && n != 4 {
            assert(cgv(groups@)[k as int].len() == n);
            return false;
        }
        k = k + 1;
    }
    true
}

fn to_string(v: &[char]) -> (r: String)
    ensures
        r@ == v@,
{
    string_of(v)
}

fn to_strings(v: &Vec<Vec<char>>) -> (r: Vec<String>)
    ensures
        texts(r@) == cv(v@),
{
    let mut out: Vec<String> = Vec::new();
    let mut k: usize = 0;
    while k < v.len()
        invariant
            k <= v@.len(),
            texts(out@) == cv(v@).take(k as int),
        decreases v@.len() - k,
    {
        let ghost prev = out@;
        let s = to_string(&v[k]);
        out.push(s);
        assert(texts(out@) =~= texts(prev).push(s@));
        assert(cv(v@).take(k + 1) =~= cv(v@).take(k as int).push(v@[k as int]@));
        k = k + 1;
    }
    assert(cv(v@).take(v@.len() as int) =~= cv(v@));
    out
}

fn to_string_groups(v: &Vec<Vec<Vec<char>>>) -> (r: Vec<Vec<String>>)
    ensures
        text_groups(r@) == cgv(v@),
{
    let mut out: Vec<Vec<String>> = Vec::new();
    let mut k: usize = 0;
    while k < v.len()
        invariant
            k <= v@.len(),
            text_groups(out@) == cgv(v@).take(k as int),
        decreases v@.len() - k,
    {
        let ghost prev = out@;
        let s = to_strings(&v[k]);
        out.push(s);
        assert(text_groups(out@) =~= text_groups(prev).push(texts(s@)));
        assert(cgv(v@).take(k + 1) =~= cgv(v@).take(k as int).push(cv(v@[k as int]@)));
        k = k + 1;
    }
    assert(cgv(v@).take(v@.len() as int) =~= cgv(v@));
    out
}

fn to_opt_string(o: &Option<Vec<char>>) -> (r: Option<String>)
    ensures
        ov(r) == ocv(*o),
{
    match o {
        Some(x) => Some(to_string(x)),
        None => None,
    }
}

fn clamp_exec(open_group: Option<usize>, len: usize) -> (r: usize)
    requires
        len > 0,
    ensures
        r == clamp_open_group(open_group, len as nat),
{
    let g = match open_group {
        Some(n) => n,
        None => 0,
    };
    if g <= len - 1 {
        g
    } else {
        len - 1
    }
}

fn finish_exec(a: AccExec) -> (r: Result<LaunchRequest, String>)
    ensures
        launch_outcome(r, finish(acc_view(a))),
{
    if a.groups.len() > 0 {
        if a.raw.len() > 0 {
            return Err(err("Cannot mix grouped launch (group=...) with path=/paths= parameters."));
        }
        if a.base.is_some() {
            return Err(err("Cannot mix grouped local launch (group=...) with dicomweb=."));
        }
        if a.series_groups.len() > 0 {
            return Err(err("Cannot mix grouped local launch (group=...) with grouped DICOMweb launch (group_series=...)."));
        }
        if !all_sizes_ok(&a.groups) {
            return Err(err("Each group must contain exactly 1 or 4 DICOM paths."));
        }
        let open_group = clamp_exec(a.open_group, a.groups.len());
        let groups = to_string_groups(&a.groups);
        return Ok(LaunchRequest::LocalGroups { groups, open_group });
    }
    if a.series_groups.len() > 0 {
        if a.raw.len() > 0 {
            return Err(err("Cannot mix grouped DICOMweb launch (group_series=...) with path=/paths= parameters."));
        }
        if a.series.is_some() || a.instance.is_some() {
            return Err(err("Cannot mix grouped DICOMweb launch (group_series=...) with series=/instance= parameters."));
        }
        if a.user.is_some() != a.pass.is_some() {
            return Err(err("DICOMweb credentials must include both user and password."));
        }
        let base = match &a.base {
            Some(b) => to_string(b),
            None => {
                return Err(err("Grouped DICOMweb launch requires dicomweb= URL and study UID."));
            },
        };
        let study = match &a.study {
            Some(s) => to_string(s),
            None => {
                return Err(err("Grouped DICOMweb launch requires study UID via study=..."));
            },
        };
        if !all_sizes_ok(&a.series_groups) {
            return Err(err("Each group_series group must contain exactly 1 or 4 series UIDs."));
        }
        let open_group = clamp_exec(a.open_group, a.series_groups.len());
        return Ok(
            LaunchRequest::DicomWebGroups(
                DicomWebGroupedLaunchRequest {
                    base_url: base,
                    study_uid: study,
                    groups: to_string_groups(&a.series_groups),
                    open_group,
                    username: to_opt_string(&a.user),
                    password: to_opt_string(&a.pass),
                },
            ),
        );
    }
    if let Some(b) = &a.base {
        if a.user.is_some() != a.pass.is_some() {
            return Err(err("DICOMweb credentials must include both user and password."));
        }
        let study = match &a.study {
            Some(s) => to_string(s),
            None => {
                return Err(err("DICOMweb launch requires 'study' (StudyInstanceUID)."));
            },
        };
        return Ok(
            LaunchRequest::DicomWeb(
                DicomWebLaunchRequest {
                    base_url: to_string(b),
                    study_uid: study,
                    series_uid: to_opt_string(&a.series),
                    instance_uid: to_opt_string(&a.instance),
                    username: to_opt_string(&a.user),
                    password: to_opt_string(&a.pass),
                },
            ),
        );
    }
    if a.user.is_some() || a.pass.is_some() {
        return Err(err("DICOMweb credentials were provided without dicomweb= URL."));
    }
    if a.raw.len() == 0 {
        return Err(err("No DICOM path found in URL. Use path=..., file=..., paths=..., or files=..."));
    }
    Ok(LaunchRequest::LocalPaths(to_strings(&a.raw)))
}

fn location_path_exec(location: &[char]) -> (r: Result<Option<Vec<char>>, String>)
    ensures
        match location_path(location@) {
            Ok(p) => r matches Ok(x) && match (x, p) {
                (Some(a), Some(b)) => a@ == b,
                (None, None) => true,
                _ => false,
            },
            Err(f) => r matches Err(m) && fault_message(f, m@),
        },
{
    let t = trim(location);
    let lower = to_lower(&t);
    if t.len() == 0 || key_is(&t, "/") || key_is(&lower, "open") {
        return Ok(None);
    }
    let prefix = chars_of("open/");
    proof {
        reveal_strlit("open/");
    }
    assert(prefix@.len() == 5);
    if crate::text::starts_with(&lower, &prefix) {
        assert(lower@.len() == t@.len());
        let tl = t.len();
        let rest = slice_vec(&t, 5, tl);
        assert(rest@ =~= t@.skip(5));
        let d = decode_chars(&rest)?;
        if trim(&d).len() == 0 {
            return Ok(None);
        }
        return Ok(Some(d));
    }
    let d = decode_chars(&t)?;
    Ok(Some(d))
}

fn after_scheme_exec(uri: &[char]) -> (r: Option<Vec<char>>)
    ensures
        match after_scheme(uri@) {
            Some(rest) => r matches Some(x) && x@ == rest,
            None => r is None,
        },
{
    let n = uri.len();
    if n < 12 {
        return None;
    }
    let head = slice_vec(uri, 0, 12);
    let lower = to_lower(&head);
    assert(head@ =~= uri@.take(12));
    if key_is(&lower, "perspecta://") {
        let rest = slice_vec(uri, 12, n);
        assert(rest@ =~= uri@.skip(12));
        Some(rest)
    } else {
        None
    }
}

proof fn lemma_apply_pairs_err(acc: Acc, pairs: Seq<Text>, k: int, n: int)
    requires
        0 <= k <= n,
        apply_pairs(acc, pairs, k) is Err,
    ensures
        apply_pairs(acc, pairs, n) == apply_pairs(acc, pairs, k),
    decreases n - k,
{
    if n > k {
        lemma_apply_pairs_err(acc, pairs, k, n - 1);
    }
}

/// Parses a `perspecta://` launch URL (see `launch_of_uri`).
pub fn parse_perspecta_uri(uri: &str) -> (r: Result<LaunchRequest, String>)
    ensures
        launch_outcome(r, launch_of_uri(uri@)),
{
    let u = chars_of(uri);
    let rest = match after_scheme_exec(&u) {
        Some(x) => x,
        None => {
            return Err(err("URL must start with perspecta://"));
        },
    };
    let ghost rest_v = rest@;
    let rl = rest.len();
    let (location, query) = match find_char(&rest, '?') {
        Some(q) => {
            proof {
                lemma_find_from_facts(rest@, seq!['?'], 0);
                assert(occurs_at(rest@, seq!['?'], q as int));
            }
            let l = slice_vec(&rest, 0, q);
            let qs = slice_vec(&rest, q + 1, rl);
            assert(l@ =~= rest@.take(q as int));
            assert(qs@ =~= rest@.skip(q + 1));
            (l, Some(qs))
        },
        None => (rest, None),
    };
    let ghost split = match split_once_seq(rest_v, '?') {
        Some((l, q)) => (l, Some(q)),
        None => (rest_v, None),
    };
    assert(location@ == split.0);
    assert(match query {
        Some(q) => split.1 == Some(q@),
        None => split.1 is None,
    });
    let lp = match location_path_exec(&location) {
        Ok(p) => p,
        Err(e) => {
            return Err(e);
        },
    };
    let mut raw: Vec<Vec<char>> = Vec::new();
    match lp {
        Some(p) => raw.push(p),
        None => {},
    }
    let mut acc = AccExec {
        raw,
        groups: Vec::new(),
        series_groups: Vec::new(),
        base: None,
        study: None,
        series: None,
        instance: None,
        user: None,
        pass: None,
        open_group: None,
    };
    let ghost acc0 = acc_view(acc);
    proof {
        let lpv = location_path(location@)->Ok_0;
        assert(acc0.raw =~= match lpv {
            Some(p) => seq![p],
            None => seq![],
        });
        assert(acc0.groups =~= Seq::<Seq<Text>>::empty());
        assert(acc0.series_groups =~= Seq::<Seq<Text>>::empty());
        assert(acc0 == empty_acc(acc0.raw));
    }
    match query {
        None => {},
        Some(q) => {
            let pairs = split_char(&q, '&');
            let ghost pv = cv(pairs@);
            assert(pv == split_seq(q@, '&'));
            assert(launch_of_uri(uri@) == match apply_pairs(acc0, pv, pv.len() as int) {
                Err(f) => Err(f),
                Ok(a) => finish(a),
            });
            let mut k: usize = 0;
            while k < pairs.len()
                invariant
                    k <= pairs@.len(),
                    pv == cv(pairs@),
                    launch_of_uri(uri@) == match apply_pairs(acc0, pv, pv.len() as int) {
                        Err(f) => Err(f),
                        Ok(a) => finish(a),
                    },
                    apply_pairs(acc0, pv, k as int) == Ok::<Acc, LaunchFault>(acc_view(acc)),
                decreases pairs@.len() - k,
            {
                acc = match apply_pair_exec(acc, &pairs[k]) {
                    Ok(a) => a,
                    Err(e) => {
                        proof {
                            assert(pv[k as int] == pairs@[k as int]@);
                            assert(apply_pairs(acc0, pv, k + 1) is Err);
                            lemma_apply_pairs_err(acc0, pv, k + 1, pv.len() as int);
                        }
                        return Err(e);
                    },
                };
                k = k + 1;
            }
        },
    }
    finish_exec(acc)
}

/// `args` names a `perspecta://` URL.
pub open spec fn is_launch_uri(a: Text) -> bool {
    after_scheme(a) is Some
}

/// The launch request that command-line arguments make: none without
/// arguments; one `perspecta://` URL is parsed; `--open` and then paths, or
/// paths alone, open those paths.
pub open spec fn launch_of_args(args: Seq<Text>) -> Result<Option<LaunchView>, ()> {
    if args.len() == 0 {
        Ok(None)
    } else if args.len() == 1 && is_launch_uri(args[0]) {
        match launch_of_uri(args[0]) {
            Ok(l) => Ok(Some(l)),
            Err(_) => Err(()),
        }
    } else if args[0] == "--open"@ {
        if args.len() == 1 {
            Err(())
        } else {
            Ok(Some(LaunchView::LocalPaths(args.skip(1))))
        }
    } else {
        Ok(Some(LaunchView::LocalPaths(args)))
    }
}

fn copy_strings(v: &[String], from: usize) -> (r: Vec<String>)
    requires
        from <= v@.len(),
    ensures
        texts(r@) == texts(v@).skip(from as int),
{
    let mut out: Vec<String> = Vec::new();
    let mut k: usize = from;
    while k < v.len()
        invariant
            from <= k <= v@.len(),
            texts(out@) == texts(v@).subrange(from as int, k as int),
        decreases v@.len() - k,
    {
        let ghost prev = out@;
        let c = v[k].clone();
        out.push(c);
        assert(texts(out@) =~= texts(prev).push(c@));
        assert(texts(v@).subrange(from as int, k + 1) =~= texts(v@).subrange(from as int, k as int).push(v@[k as int]@));
        k = k + 1;
    }
    assert(texts(v@).subrange(from as int, v@.len() as int) =~= texts(v@).skip(from as int));
    out
}

/// Reads the launch request from command-line arguments (see `launch_of_args`).
pub fn parse_launch_request_from_args(args: &[String]) -> (r: Result<Option<LaunchRequest>, String>)
    ensures
        match r {
            Ok(Some(l)) => launch_of_args(texts(args@)) == Ok::<Option<LaunchView>, ()>(Some(launch_view(l))),
            Ok(None) => launch_of_args(texts(args@)) == Ok::<Option<LaunchView>, ()>(None),
            Err(_) => launch_of_args(texts(args@)) is Err,
        },
{
    if args.len() == 0 {
        return Ok(None);
    }
    let first = chars_of(args[0].as_str());
    assert(texts(args@)[0] == first@);
    if args.len() == 1 && after_scheme_exec(&first).is_some() {
        return match parse_perspecta_uri(args[0].as_str()) {
            Ok(l) => Ok(Some(l)),
            Err(e) => Err(e),
        };
    }
    if key_is(&first, "--open") {
        if args.len() == 1 {
            return Err(err("Missing file path(s) after --open."));
        }
        return Ok(Some(LaunchRequest::LocalPaths(copy_strings(args, 1))));
    }
    let all = copy_strings(args, 0);
    assert(texts(args@).skip(0) =~= texts(args@));
    Ok(Some(LaunchRequest::LocalPaths(all)))
}

} // verus!

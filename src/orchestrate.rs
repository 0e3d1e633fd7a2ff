//! The decisions of a DICOMweb download, apart from the network: what to
//! fetch next, how metadata answers narrow the instances of each group, and
//! when a request is done or has failed. The caller performs each action
//! (an HTTP request, a download) and feeds the outcome back.
use vstd::prelude::*;
use vstd::string::StringExecFns;

use crate::dicomweb::{
    instances_view, metadata_instances, metadata_url, normalize_base_url, normalized_base_url,
    parse_metadata_instances, InstanceView, MetadataInstance,
};
use crate::launch::{DicomWebGroupedLaunchRequest, DicomWebLaunchRequest, text_groups};
use crate::text::{decimal, decimal_text, starts_with_seq};
use crate::select::{
    reduce_outcome, reduce_series_instances, result_view, select_instances_for_viewer,
    select_outcome,
};

verus! {

/// What to do first for a single DICOMweb request.
pub enum SingleStep {
    /// Download this one instance.
    Instance { base: String, study_uid: String, series_uid: Option<String>, instance_uid: String },
    /// Fetch the metadata at this URL, then select instances from it.
    Metadata { base: String, url: String },
}

/// The first step of a single request: a named instance is downloaded
/// directly; otherwise the study (or series) metadata is fetched.
pub fn plan_single_request(request: &DicomWebLaunchRequest) -> (r: SingleStep)
    ensures
        match r {
            SingleStep::Instance { base, study_uid, series_uid, instance_uid } => request.instance_uid
                matches Some(i) && instance_uid@ == i@ && base@ == normalized_base_url(
                request.base_url@,
            ) && study_uid@ == request.study_uid@ && crate::dicomweb::opt_view(series_uid)
                == crate::dicomweb::opt_view(request.series_uid),
            SingleStep::Metadata { base, url } => request.instance_uid is None && base@
                == normalized_base_url(request.base_url@) && (match request.series_uid {
                Some(s) => url@ == base@ + "/studies/"@ + request.study_uid@ + "/series/"@ + s@
                    + "/metadata"@,
                None => url@ == base@ + "/studies/"@ + request.study_uid@ + "/metadata"@,
            }),
        },
{
    let base = normalize_base_url(request.base_url.as_str());
    match &request.instance_uid {
        Some(i) => SingleStep::Instance {
            base,
            study_uid: request.study_uid.clone(),
            series_uid: crate::dicomweb::copy_opt_string(&request.series_uid),
            instance_uid: i.clone(),
        },
        None => {
            let url = match &request.series_uid {
                Some(s) => metadata_url(base.as_str(), request.study_uid.as_str(), Some(s.as_str())),
                None => metadata_url(base.as_str(), request.study_uid.as_str(), None),
            };
            SingleStep::Metadata { base, url }
        },
    }
}

/// The instances to download for a single request, from its metadata
/// answer: the answer must parse and name instances; then they are selected.
pub fn instances_for_single_request(json: &str, requested_series_uid: Option<&str>) -> (r: Result<
    Vec<MetadataInstance>,
    String,
>)
    ensures
        match metadata_instances(json@) {
            None => r is Err,
            Some(all) => if all.len() == 0 {
                r is Err
            } else {
                select_outcome(
                    all,
                    match requested_series_uid {
                        Some(u) => Some(u@),
                        None => None,
                    },
                    result_view(r),
                )
            },
        },
{
    let instances = parse_metadata_instances(json)?;
    if instances.len() == 0 {
        return Err(String::from_str("DICOMweb metadata query returned no instances"));
    }
    select_instances_for_viewer(instances, requested_series_uid)
}

/// A metadata answer that parses, names instances and reduces to
/// `reduced`; the selection grows by all of it for a one-series group, by
/// its first instance otherwise.
pub open spec fn accepted_metadata(
    json: Seq<char>,
    group_len: nat,
    before: Seq<InstanceView>,
    after: Seq<InstanceView>,
) -> bool {
    metadata_instances(json) matches Some(all) && all.len() > 0 && exists|reduced: Seq<InstanceView>|
        #![trigger reduce_outcome(all, Ok(reduced))]
        reduce_outcome(all, Ok(reduced)) && reduced.len() > 0 && after == if group_len == 1 {
            before + reduced
        } else {
            before.push(reduced[0])
        }
}

/// The files a DICOMweb request produced: one list, or one list per group
/// with the group to show first.
#[derive(Debug, Clone, PartialEq, Eq)]
pub enum DicomWebDownloadResult {
    Single(Vec<String>),
    Grouped { groups: Vec<Vec<String>>, open_group: usize },
}

/// What a grouped download asks its caller to do next.
pub enum GroupAction {
    /// Fetch the metadata of one series of the current group.
    FetchMetadata { url: String },
    /// Download the selected instances of the current group, one by one
    /// with each path reported at once (`streaming`) or all in parallel.
    Download { instances: Vec<MetadataInstance>, streaming: bool },
    /// Every group is downloaded; this group is to be shown first.
    Finished { open_group: usize },
    /// The request cannot go on.
    Failed(String),
}

/// A grouped download in progress: the group being resolved, how many of
/// its series have been resolved, and the instances selected so far.
pub struct GroupDownload {
    pub base: String,
    pub study_uid: String,
    pub groups: Vec<Vec<String>>,
    pub open_group: usize,
    pub group: usize,
    pub series: usize,
    pub selected: Vec<MetadataInstance>,
}

impl GroupDownload {
    pub open spec fn wf(&self) -> bool {
        &&& self.groups@.len() > 0
        &&& self.group <= self.groups@.len()
        &&& self.group < self.groups@.len() ==> self.series <= self.groups@[self.group as int]@.len()
    }

    /// Starts a grouped download; a request without groups fails.
    pub fn new(request: &DicomWebGroupedLaunchRequest) -> (r: Result<GroupDownload, String>)
        ensures
            request.groups@.len() == 0 <==> r is Err,
            r matches Ok(g) ==> g.wf() && g.group == 0 && g.series == 0 && g.selected@.len() == 0
                && g.base@ == normalized_base_url(request.base_url@) && g.study_uid@
                == request.study_uid@ && text_groups(g.groups@) == text_groups(request.groups@)
                && g.open_group == request.open_group,
    {
        if request.groups.len() == 0 {
            return Err(String::from_str("DICOMweb grouped launch requested no groups"));
        }
        let groups = copy_groups(&request.groups);
        Ok(
            GroupDownload {
                base: normalize_base_url(request.base_url.as_str()),
                study_uid: request.study_uid.clone(),
                groups,
                open_group: request.open_group,
                group: 0,
                series: 0,
                selected: Vec::new(),
            },
        )
    }

    /// The next action: finish after the last group; fail on a group that
    /// does not hold 1 or 4 series, or that resolved to other than 1 or 4
    /// instances; fetch the next series' metadata; else download the group.
    pub fn next_action(&self) -> (r: GroupAction)
        requires
            self.wf(),
        ensures
            self.group == self.groups@.len() ==> (r matches GroupAction::Finished { open_group } && open_group == if self.open_group < self.groups@.len() {
                self.open_group as int
            } else {
                self.groups@.len() - 1
            }),
            self.group < self.groups@.len() ==> ({
                let g = self.groups@[self.group as int]@;
                if g.len() != 1 && g.len() != 4 {
                    r matches GroupAction::Failed(m) && m@ == group_size_error(self.group as nat, g.len())
                } else if self.series < g.len() {
                    r matches GroupAction::FetchMetadata { url } && url@ == self.base@ + "/studies/"@
                        + self.study_uid@ + "/series/"@ + g[self.series as int]@ + "/metadata"@
                } else if self.selected@.len() != 1 && self.selected@.len() != 4 {
                    r matches GroupAction::Failed(m) && m@ == group_resolution_error(
                        self.group as nat,
                        self.selected@.len(),
                    )
                } else {
                    r matches GroupAction::Download { instances, streaming } && instances_view(
                        instances@,
                    ) == instances_view(self.selected@) && streaming == (self.group
                        == self.open_group)
                }
            }),
    {
        let n = self.groups.len();
        if self.group >= n {
            let last = n - 1;
            let open_group = if self.open_group < last {
                self.open_group
            } else {
                last
            };
            return GroupAction::Finished { open_group };
        }
        let g = &self.groups[self.group];
        if g.len() != 1 && g.len() != 4 {
            let mut m = String::from_str("DICOMweb group ");
            m.append(decimal_text(self.group as u64).as_str());
            m.append(" has ");
            m.append(decimal_text(g.len() as u64).as_str());
            m.append(" series UIDs; each group must contain exactly 1 or 4 series UIDs");
            return GroupAction::Failed(m);
        }
        if self.series < g.len() {
            let url = metadata_url(
                self.base.as_str(),
                self.study_uid.as_str(),
                Some(g[self.series].as_str()),
            );
            return GroupAction::FetchMetadata { url };
        }
        if self.selected.len() != 1 && self.selected.len() != 4 {
            let mut m = String::from_str("DICOMweb group ");
            m.append(decimal_text(self.group as u64).as_str());
            m.append(" resolved to ");
            m.append(decimal_text(self.selected.len() as u64).as_str());
            m.append(" instances; each group must resolve to 1 or 4 DICOM instances");
            return GroupAction::Failed(m);
        }
        GroupAction::Download {
            instances: copy_instances(&self.selected),
            streaming: self.group == self.open_group,
        }
    }

    /// The metadata answer for the series just fetched: it must parse, name
    /// instances and reduce; a one-series group keeps every reduced
    /// instance, a four-series group the first of them.
    pub fn on_metadata(self, json: &str) -> (r: Result<GroupDownload, String>)
        requires
            self.wf(),
            self.group < self.groups@.len(),
            self.series < self.groups@[self.group as int]@.len(),
        ensures
            match r {
                Ok(next) => next.wf() && next.group == self.group && next.series == self.series + 1
                    && next.groups == self.groups && next.base == self.base && next.study_uid
                    == self.study_uid && next.open_group == self.open_group && accepted_metadata(
                    json@,
                    self.groups@[self.group as int]@.len(),
                    instances_view(self.selected@),
                    instances_view(next.selected@),
                ),
                Err(m) => starts_with_seq(
                    m@,
                    series_context(self.group as nat, self.groups@[self.group as int]@[self.series as int]@),
                ) && match metadata_instances(json@) {
                    None => true,
                    Some(all) => all.len() == 0 || reduce_outcome(all, Err(())),
                },
            },
    {
        let ghost old_selected = instances_view(self.selected@);
        let ghost old_group = self.groups@[self.group as int]@;
        let ctx = series_context_text(self.group, &self.groups[self.group][self.series]);
        let instances = match parse_metadata_instances(json) {
            Ok(v) => v,
            Err(e) => return Err(with_context(&ctx, " metadata could not be read: ", &e)),
        };
        if instances.len() == 0 {
            return Err(with_context(&ctx, " returned no DICOM instances", &String::new()));
        }
        let ghost all = instances_view(instances@);
        let reduced = match reduce_series_instances(instances) {
            Ok(v) => v,
            Err(e) => return Err(with_context(&ctx, " did not resolve to a supported instance set: ", &e)),
        };
        proof {
            assert(reduce_outcome(all, Ok(instances_view(reduced@))));
        }
        let one = self.groups[self.group].len() == 1;
        let mut selected = self.selected;
        let ghost before = instances_view(selected@);
        if one {
            let mut k: usize = 0;
            while k < reduced.len()
                invariant
                    k <= reduced@.len(),
                    instances_view(selected@) == before + instances_view(reduced@).take(k as int),
                decreases reduced@.len() - k,
            {
                let ghost prev = selected@;
                let m = reduced[k].duplicate();
                selected.push(m);
                assert(instances_view(selected@) =~= instances_view(prev).push(m@));
                assert(instances_view(reduced@).take(k + 1) =~= instances_view(reduced@).take(
                    k as int,
                ).push(reduced@[k as int]@));
                k = k + 1;
            }
            assert(instances_view(reduced@).take(reduced@.len() as int) =~= instances_view(
                reduced@,
            ));
        } else {
            let m = reduced[0].duplicate();
            selected.push(m);
            assert(instances_view(selected@) =~= before.push(m@));
        }
        let ghost rv = instances_view(reduced@);
        let next = GroupDownload {
            base: self.base,
            study_uid: self.study_uid,
            groups: self.groups,
            open_group: self.open_group,
            group: self.group,
            series: self.series + 1,
            selected,
        };
        proof {
            assert(rv.len() > 0);
            assert(next.wf());
            assert(metadata_instances(json@) == Some(all));
            assert(all.len() > 0);
            assert(before == old_selected);
            assert(next.groups@[next.group as int]@ == old_group);
            assert(reduce_outcome(all, Ok(rv)) && rv.len() > 0 && instances_view(next.selected@) == if old_group.len() == 1 {
                old_selected + rv
            } else {
                old_selected.push(rv[0])
            });
            assert(accepted_metadata(json@, old_group.len(), old_selected, instances_view(next.selected@)));
        }
        Ok(next)
    }

    /// The current group is downloaded: move on to the next one.
    pub fn on_group_downloaded(self) -> (r: GroupDownload)
        requires
            self.wf(),
            self.group < self.groups@.len(),
        ensures
            r.wf(),
            r.group == self.group + 1,
            r.series == 0,
            r.selected@.len() == 0,
            r.groups == self.groups,
            r.base == self.base,
            r.study_uid == self.study_uid,
            r.open_group == self.open_group,
    {
        let n = self.groups.len();
        let next_group = if self.group < n { self.group + 1 } else { n };
        GroupDownload {
            base: self.base,
            study_uid: self.study_uid,
            groups: self.groups,
            open_group: self.open_group,
            group: next_group,
            series: 0,
            selected: Vec::new(),
        }
    }
}

/// The error of a group that does not hold 1 or 4 series: it names the
/// group and its size.
pub open spec fn group_size_error(group: nat, size: nat) -> Seq<char> {
    "DICOMweb group "@ + decimal(group) + " has "@ + decimal(size)
        + " series UIDs; each group must contain exactly 1 or 4 series UIDs"@
}

/// The error of a group whose series resolve to other than 1 or 4
/// instances: it names the group and the count.
pub open spec fn group_resolution_error(group: nat, count: nat) -> Seq<char> {
    "DICOMweb group "@ + decimal(group) + " resolved to "@ + decimal(count)
        + " instances; each group must resolve to 1 or 4 DICOM instances"@
}

/// How every failure of one series begins: its group and series UID.
pub open spec fn series_context(group: nat, series_uid: Seq<char>) -> Seq<char> {
    "Group "@ + decimal(group) + " series "@ + series_uid
}

fn series_context_text(group: usize, series_uid: &String) -> (r: String)
    ensures
        r@ == series_context(group as nat, series_uid@),
{
    let mut m = String::from_str("Group ");
    m.append(decimal_text(group as u64).as_str());
    m.append(" series ");
    m.append(series_uid.as_str());
    m
}

fn with_context(ctx: &String, what: &str, cause: &String) -> (r: String)
    ensures
        r@ == ctx@ + what@ + cause@,
        starts_with_seq(r@, ctx@),
{
    let mut m = ctx.clone();
    m.append(what);
    m.append(cause.as_str());
    assert(m@.take(ctx@.len() as int) =~= ctx@);
    m
}

fn copy_instances(v: &Vec<MetadataInstance>) -> (r: Vec<MetadataInstance>)
    ensures
        instances_view(r@) == instances_view(v@),
{
    let mut out: Vec<MetadataInstance> = Vec::new();
    let mut k: usize = 0;
    while k < v.len()
        invariant
            k <= v@.len(),
            instances_view(out@) == instances_view(v@).take(k as int),
        decreases v@.len() - k,
    {
        let ghost prev = out@;
        let m = v[k].duplicate();
        out.push(m);
        assert(instances_view(out@) =~= instances_view(prev).push(m@));
        assert(instances_view(v@).take(k + 1) =~= instances_view(v@).take(k as int).push(v@[k as int]@));
        k = k + 1;
    }
    assert(instances_view(v@).take(v@.len() as int) =~= instances_view(v@));
    out
}

fn copy_strings(v: &Vec<String>) -> (r: Vec<String>)
    ensures
        r@ == v@,
{
    let mut out: Vec<String> = Vec::new();
    let mut k: usize = 0;
    while k < v.len()
        invariant
            k <= v@.len(),
            out@ == v@.take(k as int),
        decreases v@.len() - k,
    {
        out.push(v[k].clone());
        k = k + 1;
        assert(out@ =~= v@.take(k as int));
    }
    assert(v@.take(v@.len() as int) =~= v@);
    out
}

fn copy_groups(v: &Vec<Vec<String>>) -> (r: Vec<Vec<String>>)
    ensures
        text_groups(r@) == text_groups(v@),
        r@.len() == v@.len(),
        forall|i: int| 0 <= i < v@.len() ==> #[trigger] r@[i]@ == v@[i]@,
{
    let mut out: Vec<Vec<String>> = Vec::new();
    let mut k: usize = 0;
    while k < v.len()
        invariant
            k <= v@.len(),
            out@.len() == k,
            forall|i: int| 0 <= i < k ==> #[trigger] out@[i]@ == v@[i]@,
        decreases v@.len() - k,
    {
        out.push(copy_strings(&v[k]));
        k = k + 1;
    }
    assert(text_groups(out@) =~= text_groups(v@));
    out
}

} // verus!

use vstd::prelude::*;
use vstd::string::*;
use crate::model::{ImageEntry, Origin};
use crate::text::{eq_ignoring_case, same_ignoring_case, same_text};

verus! {

broadcast use vstd::seq_lib::group_seq_properties;

/// Whether the image filter keeps `e`: its role matches `filter` up to ASCII case
/// (any role when `filter` is "all"), and its size, where known, is at most
/// `max_kb` kilobytes.
pub open spec fn keeps_image(e: ImageEntry, filter: Seq<char>, max_kb: u64) -> bool {
    &&& filter == "all"@ || same_ignoring_case(e.role@, filter)
    &&& match e.approximate_size_bytes {
        Some(b) => b as int <= max_kb as int * 1024,
        None => true,
    }
}

pub open spec fn image_pred(filter: Seq<char>, max_kb: u64) -> spec_fn(ImageEntry) -> bool {
    |e: ImageEntry| keeps_image(e, filter, max_kb)
}

/// Whether the image filter keeps `e`.
pub fn image_kept(e: &ImageEntry, filter: &str, max_kb: u64) -> (r: bool)
    ensures
        r == keeps_image(*e, filter@, max_kb),
{
    let role_ok = same_text(filter, "all") || eq_ignoring_case(e.role.as_str(), filter);
    let size_ok = match e.approximate_size_bytes {
        Some(b) => (b as u128) <= (max_kb as u128) * 1024,
        None => true,
    };
    role_ok && size_ok
}

/// The entries of `entries` that the image filter keeps, in order.
pub fn filter_images(entries: Vec<ImageEntry>, filter: &str, max_kb: u64) -> (r: Vec<ImageEntry>)
    ensures
        r@ == entries@.filter(image_pred(filter@, max_kb)),
{
    let ghost orig = entries@;
    let ghost pred = image_pred(filter@, max_kb);
    let mut rest = entries;
    let mut out: Vec<ImageEntry> = Vec::new();
    let ghost mut i: int = 0;
    while rest.len() > 0
        invariant
            0 <= i <= orig.len(),
            rest@ == orig.skip(i),
            out@ == orig.take(i).filter(pred),
            pred == image_pred(filter@, max_kb),
        decreases rest.len(),
    {
        let e = rest.remove(0);
        proof {
            assert(orig.take(i + 1) =~= orig.take(i).push(e));
            orig.take(i).lemma_filter_push(e, pred);
        }
        if image_kept(&e, filter, max_kb) {
            out.push(e);
        }
        proof {
            i = i + 1;
            assert(rest@ =~= orig.skip(i));
        }
    }
    assert(orig.take(i) =~= orig);
    out
}

/// The word for an origin in a saved file's name.
pub open spec fn origin_label_spec(o: Origin) -> Seq<char> {
    match o {
        Origin::CoverArtArchive => "coverartarchive"@,
        Origin::InternetArchive => "internetarchive"@,
    }
}

/// The word for `o` in a saved file's name.
pub fn origin_label(o: Origin) -> (r: &'static str)
    ensures
        r@ == origin_label_spec(o),
{
    match o {
        Origin::CoverArtArchive => "coverartarchive",
        Origin::InternetArchive => "internetarchive",
    }
}

/// One image to fetch, and the parts of the name it is saved under:
/// `<role>-<origin>-<sequence>.<extension>`.
pub struct DownloadJob {
    pub entry: ImageEntry,
    /// 1-based place of the image among those kept.
    pub sequence: usize,
}

/// Numbers the kept entries from 1 in order, one job each.
pub fn plan_downloads(entries: Vec<ImageEntry>) -> (r: Vec<DownloadJob>)
    ensures
        r@.len() == entries@.len(),
        forall|i: int|
            0 <= i < r@.len() ==> (#[trigger] r@[i]).entry == entries@[i] && r@[i].sequence == i + 1,
{
    let ghost orig = entries@;
    assert(orig.len() == entries.len());
    let mut rest = entries;
    let mut out: Vec<DownloadJob> = Vec::new();
    while rest.len() > 0
        invariant
            out.len() + rest.len() == orig.len(),
            orig.len() <= usize::MAX,
            rest@ == orig.skip(out.len() as int),
            forall|i: int|
                0 <= i < out.len() ==> (#[trigger] out@[i]).entry == orig[i] && out@[i].sequence == i + 1,
        decreases rest.len(),
    {
        let e = rest.remove(0);
        let sequence = out.len() + 1;
        out.push(DownloadJob { entry: e, sequence });
        assert(rest@ =~= orig.skip(out.len() as int));
    }
    out
}

/// Every job of a plan has its own sequence number, so no two images are saved
/// under the same name.
pub proof fn lemma_plan_names_distinct(entries: Seq<ImageEntry>, jobs: Seq<DownloadJob>)
    requires
        jobs.len() == entries.len(),
        forall|i: int|
            0 <= i < jobs.len() ==> (#[trigger] jobs[i]).entry == entries[i] && jobs[i].sequence == i + 1,
    ensures
        forall|i: int, j: int|
            0 <= i < jobs.len() && 0 <= j < jobs.len() && i != j ==> jobs[i].sequence != jobs[j].sequence,
{
}

/// The place of the last `c` in `s`, or -1.
pub open spec fn last_index_of(s: Seq<char>, c: char) -> int
    decreases s.len(),
{
    if s.len() == 0 {
        -1
    } else if s.last() == c {
        s.len() - 1
    } else {
        last_index_of(s.drop_last(), c)
    }
}

proof fn lemma_last_index_bounds(s: Seq<char>, c: char)
    ensures
        -1 <= last_index_of(s, c) < s.len(),
    decreases s.len(),
{
    if s.len() > 0 {
        lemma_last_index_bounds(s.drop_last(), c);
    }
}

proof fn lemma_last_index_take(s: Seq<char>, c: char, i: int)
    requires
        0 <= i <= s.len(),
        forall|j: int| i <= j < s.len() ==> s[j] != c,
    ensures
        last_index_of(s, c) == last_index_of(s.take(i), c),
    decreases s.len(),
{
    if s.len() == i {
        assert(s.take(i) =~= s);
    } else {
        lemma_last_index_take(s.drop_last(), c, i);
        assert(s.drop_last().take(i) =~= s.take(i));
    }
}

/// The place of the last `c` in `s`.
fn find_last(s: &str, c: char) -> (r: Option<usize>)
    ensures
        match r {
            Some(i) => last_index_of(s@, c) == i,
            None => last_index_of(s@, c) == -1,
        },
{
    let n = s.unicode_len();
    let mut i: usize = n;
    while i > 0
        invariant
            n == s@.len(),
            i <= n,
            forall|j: int| i <= j < n ==> s@[j] != c,
        decreases i,
    {
        if s.get_char(i - 1) == c {
            proof {
                lemma_last_index_take(s@, c, i as int);
                assert(s@.take(i as int).last() == c);
            }
            return Some(i - 1);
        }
        i = i - 1;
    }
    proof {
        lemma_last_index_take(s@, c, 0);
    }
    None
}

/// What follows the last dot of a URL's last path segment, when that is not empty.
pub open spec fn url_suffix(url: Seq<char>) -> Option<Seq<char>> {
    let d = last_index_of(url, '.');
    if d > last_index_of(url, '/') && d + 1 < url.len() {
        Some(url.subrange(d + 1, url.len() as int))
    } else {
        None
    }
}

/// The file extension that a response's content type names, for the image types
/// the archives serve.
pub open spec fn content_type_extension(ct: Seq<char>) -> Option<Seq<char>> {
    if same_ignoring_case(ct, "image/jpeg"@) {
        Some("jpg"@)
    } else if same_ignoring_case(ct, "image/png"@) {
        Some("png"@)
    } else if same_ignoring_case(ct, "image/gif"@) {
        Some("gif"@)
    } else if same_ignoring_case(ct, "image/webp"@) {
        Some("webp"@)
    } else {
        None
    }
}

/// The extension a saved image gets: from its content type, else from its URL,
/// else "jpg".
pub open spec fn extension_spec(ct: Seq<char>, url: Seq<char>) -> Seq<char> {
    match content_type_extension(ct) {
        Some(e) => e,
        None => match url_suffix(url) {
            Some(e) => e,
            None => "jpg"@,
        },
    }
}

/// Infers the extension of a saved image from its content type and URL.
pub fn infer_extension(content_type: &str, url: &str) -> (r: String)
    ensures
        r@ == extension_spec(content_type@, url@),
{
    if eq_ignoring_case(content_type, "image/jpeg") {
        return String::from_str("jpg");
    }
    if eq_ignoring_case(content_type, "image/png") {
        return String::from_str("png");
    }
    if eq_ignoring_case(content_type, "image/gif") {
        return String::from_str("gif");
    }
    if eq_ignoring_case(content_type, "image/webp") {
        return String::from_str("webp");
    }
    let n = url.unicode_len();
    proof {
        lemma_last_index_bounds(url@, '.');
        lemma_last_index_bounds(url@, '/');
    }
    match find_last(url, '.') {
        Some(d) => {
            let after_slash = match find_last(url, '/') {
                Some(sl) => d > sl,
                None => true,
            };
            if after_slash && d + 1 < n {
                return url.substring_char(d + 1, n).to_owned();
            }
        },
        None => {},
    }
    String::from_str("jpg")
}

/// How the download of one image ended.
pub enum DownloadOutcome {
    /// Written to disk; `over_limit` flags a file larger than the advisory size.
    Saved { bytes: u64, over_limit: bool },
    Skipped(String),
    Failed(String),
}

/// The outcome of saving `bytes` bytes under an advisory limit of `max_kb` kilobytes.
pub fn saved_outcome(bytes: u64, max_kb: u64) -> (r: DownloadOutcome)
    ensures
        r matches DownloadOutcome::Saved { bytes: b, over_limit } && b == bytes && over_limit == (
        bytes as int > max_kb as int * 1024),
{
    let over_limit = (bytes as u128) > (max_kb as u128) * 1024;
    DownloadOutcome::Saved { bytes, over_limit }
}

/// Whether at least one image was saved: the run then succeeds.
pub fn any_saved(outcomes: &Vec<DownloadOutcome>) -> (r: bool)
    ensures
        r == exists|i: int| 0 <= i < outcomes@.len() && (#[trigger] outcomes@[i]) is Saved,
{
    let mut i: usize = 0;
    while i < outcomes.len()
        invariant
            i <= outcomes@.len(),
            forall|j: int| 0 <= j < i ==> !((#[trigger] outcomes@[j]) is Saved),
        decreases outcomes@.len() - i,
    {
        if let DownloadOutcome::Saved { .. } = &outcomes[i] {
            return true;
        }
        i = i + 1;
    }
    false
}

/// How many of the first `n` slots have no outcome yet.
pub open spec fn open_count(slots: Seq<Option<DownloadOutcome>>, n: int) -> nat
    decreases n,
{
    if n <= 0 {
        0
    } else {
        open_count(slots, n - 1) + if slots[n - 1] is None {
            1nat
        } else {
            0nat
        }
    }
}

proof fn lemma_open_count_update(
    slots: Seq<Option<DownloadOutcome>>,
    n: int,
    idx: int,
    o: DownloadOutcome,
)
    requires
        0 <= idx < n <= slots.len(),
        slots[idx] is None,
    ensures
        open_count(slots.update(idx, Some(o)), n) + 1 == open_count(slots, n),
    decreases n,
{
    if n - 1 > idx {
        lemma_open_count_update(slots, n - 1, idx, o);
    } else {
        lemma_open_count_same(slots, slots.update(idx, Some(o)), n - 1);
    }
}

proof fn lemma_open_count_same(a: Seq<Option<DownloadOutcome>>, b: Seq<Option<DownloadOutcome>>, n: int)
    requires
        0 <= n <= a.len(),
        n <= b.len(),
        forall|j: int| 0 <= j < n ==> a[j] == b[j],
    ensures
        open_count(a, n) == open_count(b, n),
    decreases n,
{
    if n > 0 {
        lemma_open_count_same(a, b, n - 1);
    }
}

proof fn lemma_open_count_zero(slots: Seq<Option<DownloadOutcome>>, n: int)
    requires
        0 <= n <= slots.len(),
    ensures
        open_count(slots, n) == 0 <==> forall|j: int| 0 <= j < n ==> (#[trigger] slots[j]) is Some,
    decreases n,
{
    if n > 0 {
        lemma_open_count_zero(slots, n - 1);
    }
}

/// A batch of downloads run with at most `bound` in flight: it hands out jobs in
/// order and keeps one slot per job for its outcome.
pub struct Batch {
    bound: usize,
    started: usize,
    in_flight: usize,
    slots: Vec<Option<DownloadOutcome>>,
}

impl Batch {
    /// The most downloads allowed in flight at once.
    pub closed spec fn bound_spec(&self) -> nat {
        self.bound as nat
    }

    /// How many jobs have been handed out.
    pub closed spec fn started_spec(&self) -> nat {
        self.started as nat
    }

    /// The outcome of each job, once it has one.
    pub closed spec fn slots_spec(&self) -> Seq<Option<DownloadOutcome>> {
        self.slots@
    }

    /// The jobs handed out and not finished.
    pub open spec fn running(&self) -> nat {
        open_count(self.slots_spec(), self.started_spec() as int)
    }

    pub closed spec fn wf(&self) -> bool {
        &&& self.bound >= 1
        &&& self.started <= self.slots@.len()
        &&& self.in_flight == self.running()
        &&& self.in_flight <= self.bound
        &&& forall|j: int| self.started <= j < self.slots@.len() ==> (#[trigger] self.slots@[j]) is None
    }

    /// A batch of `jobs` downloads, at most `bound` at once.
    pub fn new(jobs: usize, bound: usize) -> (r: Batch)
        requires
            bound >= 1,
        ensures
            r.wf(),
            r.bound_spec() == bound,
            r.started_spec() == 0,
            r.slots_spec().len() == jobs,
            forall|j: int| 0 <= j < jobs ==> (#[trigger] r.slots_spec()[j]) is None,
    {
        let mut slots: Vec<Option<DownloadOutcome>> = Vec::new();
        let mut i: usize = 0;
        while i < jobs
            invariant
                i <= jobs,
                slots@.len() == i,
                forall|j: int| 0 <= j < i ==> (#[trigger] slots@[j]) is None,
            decreases jobs - i,
        {
            slots.push(None);
            i = i + 1;
        }
        Batch { bound, started: 0, in_flight: 0, slots }
    }

    /// The number of jobs in the batch.
    pub fn len(&self) -> (r: usize)
        ensures
            r == self.slots_spec().len(),
    {
        self.slots.len()
    }

    /// Hands out the next job when one is left and fewer than `bound` run.
    pub fn start_next(&mut self) -> (r: Option<usize>)
        requires
            old(self).wf(),
        ensures
            final(self).wf(),
            final(self).bound_spec() == old(self).bound_spec(),
            final(self).slots_spec() == old(self).slots_spec(),
            (old(self).running() < old(self).bound_spec() && old(self).started_spec()
                < old(self).slots_spec().len()) ==> r == Some(old(self).started_spec() as usize)
                && final(self).started_spec() == old(self).started_spec() + 1,
            !(old(self).running() < old(self).bound_spec() && old(self).started_spec()
                < old(self).slots_spec().len()) ==> r is None && final(self).started_spec()
                == old(self).started_spec(),
    {
        if self.in_flight < self.bound && self.started < self.slots.len() {
            let i = self.started;
            self.started = i + 1;
            self.in_flight = self.in_flight + 1;
            Some(i)
        } else {
            None
        }
    }

    /// Records the outcome of job `idx`; the other jobs are untouched.
    pub fn finish(&mut self, idx: usize, outcome: DownloadOutcome)
        requires
            old(self).wf(),
            idx < old(self).started_spec(),
            old(self).slots_spec()[idx as int] is None,
        ensures
            final(self).wf(),
            final(self).bound_spec() == old(self).bound_spec(),
            final(self).started_spec() == old(self).started_spec(),
            final(self).slots_spec() == old(self).slots_spec().update(idx as int, Some(outcome)),
            final(self).running() + 1 == old(self).running(),
    {
        proof {
            lemma_open_count_update(self.slots@, self.started as int, idx as int, outcome);
        }
        self.slots.set(idx, Some(outcome));
        self.in_flight = self.in_flight - 1;
    }

    /// Whether every job has an outcome.
    pub fn is_complete(&self) -> (r: bool)
        requires
            self.wf(),
        ensures
            r == forall|j: int| 0 <= j < self.slots_spec().len() ==> (#[trigger] self.slots_spec()[j]) is Some,
    {
        proof {
            lemma_open_count_zero(self.slots@, self.started as int);
            lemma_open_count_zero(self.slots@, self.slots@.len() as int);
            if self.started < self.slots@.len() {
                assert(self.slots@[self.started as int] is None);
            }
        }
        self.started == self.slots.len() && self.in_flight == 0
    }

    /// The outcomes of a complete batch, in job order.
    pub fn into_outcomes(self) -> (r: Vec<DownloadOutcome>)
        requires
            self.wf(),
            forall|j: int| 0 <= j < self.slots_spec().len() ==> (#[trigger] self.slots_spec()[j]) is Some,
        ensures
            r@.len() == self.slots_spec().len(),
            forall|j: int| 0 <= j < r@.len() ==> Some(#[trigger] r@[j]) == self.slots_spec()[j],
    {
        let ghost orig = self.slots@;
        let mut rest = self.slots;
        let mut out: Vec<DownloadOutcome> = Vec::new();
        while rest.len() > 0
            invariant
                out.len() + rest.len() == orig.len(),
                rest@ == orig.skip(out.len() as int),
                forall|j: int| 0 <= j < orig.len() ==> (#[trigger] orig[j]) is Some,
                forall|j: int| 0 <= j < out.len() ==> Some(#[trigger] out@[j]) == orig[j],
            decreases rest.len(),
        {
            let ghost k = out.len() as int;
            let slot = rest.remove(0);
            assert(slot == orig[k]);
            match slot {
                Some(o) => out.push(o),
                None => {},
            }
            assert(rest@ =~= orig.skip(out.len() as int));
        }
        out
    }

    /// A batch never has more than `bound` downloads in flight.
    pub proof fn lemma_running_bounded(&self)
        requires
            self.wf(),
        ensures
            self.running() <= self.bound_spec(),
    {
    }
}

/// The final record of one job.
pub struct DownloadResult {
    pub job: DownloadJob,
    pub outcome: DownloadOutcome,
}

/// Pairs each job with its outcome, in job order.
pub fn pair_results(jobs: Vec<DownloadJob>, outcomes: Vec<DownloadOutcome>) -> (r: Vec<DownloadResult>)
    requires
        jobs@.len() == outcomes@.len(),
    ensures
        r@.len() == jobs@.len(),
        forall|i: int|
            0 <= i < r@.len() ==> (#[trigger] r@[i]).job == jobs@[i] && r@[i].outcome == outcomes@[i],
{
    let ghost js = jobs@;
    let ghost os = outcomes@;
    let mut jobs = jobs;
    let mut outcomes = outcomes;
    let mut out: Vec<DownloadResult> = Vec::new();
    while jobs.len() > 0
        invariant
            jobs.len() == outcomes.len(),
            out.len() + jobs.len() == js.len(),
            js.len() == os.len(),
            jobs@ == js.skip(out.len() as int),
            outcomes@ == os.skip(out.len() as int),
            forall|i: int|
                0 <= i < out.len() ==> (#[trigger] out@[i]).job == js[i] && out@[i].outcome == os[i],
        decreases jobs.len(),
    {
        let job = jobs.remove(0);
        let outcome = outcomes.remove(0);
        out.push(DownloadResult { job, outcome });
        assert(jobs@ =~= js.skip(out.len() as int));
        assert(outcomes@ =~= os.skip(out.len() as int));
    }
    out
}

} // verus!

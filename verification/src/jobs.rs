//! Job orchestrator: an append-only job table keyed by id and the takeoff
//! pipeline that drives one job from `Pending` through the fixed stage
//! sequence to `Succeeded` or `Failed`. The table is an owned value; callers
//! guard it with their own lock and perform document I/O, OCR and detection,
//! handing the outcomes in as plain values.
use vstd::prelude::*;
use crate::detect::Det;
use crate::measure::sqrt_floor;
use crate::measure::isqrt128;
use crate::raster::GrayImage;
use crate::raster::Seg;
use crate::raster::spec_vectorize;
use crate::raster::vectorize_gray;
use crate::render::spec_render;
use crate::render::render_result;
use crate::scale::spec_infer_scale;
use crate::scale::infer_scale_from_text;

verus! {

/// Progress of a running job: the current stage name and percent done.
#[derive(Debug)]
pub struct JobProgress {
    pub stage: String,
    pub pct: u8,
}

impl Clone for JobProgress {
    fn clone(&self) -> (r: Self)
        ensures
            r == *self,
    {
        JobProgress { stage: self.stage.clone(), pct: self.pct }
    }
}

/// Lifecycle of a job: `Pending` is initial; `Succeeded` and `Failed` are
/// terminal; `Running` is re-entered with non-decreasing percentages.
#[derive(Debug)]
pub enum JobState {
    Pending,
    Running(JobProgress),
    Succeeded,
    Failed(String),
}

impl Clone for JobState {
    fn clone(&self) -> (r: Self)
        ensures
            r == *self,
    {
        match self {
            JobState::Pending => JobState::Pending,
            JobState::Running(p) => JobState::Running(p.clone()),
            JobState::Succeeded => JobState::Succeeded,
            JobState::Failed(e) => JobState::Failed(e.clone()),
        }
    }
}

/// One job record: identity, current state, optional serialized result.
#[derive(Debug)]
pub struct Job {
    pub id: u64,
    pub state: JobState,
    pub result_json: Option<String>,
}

impl Clone for Job {
    fn clone(&self) -> (r: Self)
        ensures
            r == *self,
    {
        Job {
            id: self.id,
            state: self.state.clone(),
            result_json: match &self.result_json {
                Some(s) => Some(s.clone()),
                None => None,
            },
        }
    }
}

/// The append-only job table: the job with id `i + 1` sits at index `i`.
pub struct JobTable {
    pub jobs: Vec<Job>,
}

/// Percent reported when the stage numbered `k` begins.
pub open spec fn stage_pct(k: int) -> u8 {
    if k == 0 {
        5
    } else if k == 1 {
        15
    } else if k == 2 {
        30
    } else if k == 3 {
        45
    } else if k == 4 {
        55
    } else if k == 5 {
        70
    } else if k == 6 {
        82
    } else {
        92
    }
}

/// Name of the stage numbered `k`.
pub open spec fn stage_name(k: int) -> Seq<char> {
    if k == 0 {
        "open"@
    } else if k == 1 {
        "tile-pyramid"@
    } else if k == 2 {
        "vectors"@
    } else if k == 3 {
        "ocr"@
    } else if k == 4 {
        "scale"@
    } else if k == 5 {
        "detect"@
    } else if k == 6 {
        "measure"@
    } else {
        "map"@
    }
}

/// Law: progress percentages follow the stage order monotonically.
pub proof fn lemma_stage_pct_monotone()
    ensures
        forall|i: int, j: int| 0 <= i <= j < 8 ==> #[trigger] stage_pct(i) <= #[trigger] stage_pct(
            j,
        ),
{
}

fn stage_label(k: usize) -> (r: &'static str)
    requires
        k < 8,
    ensures
        r@ == stage_name(k as int),
{
    match k {
        0 => "open",
        1 => "tile-pyramid",
        2 => "vectors",
        3 => "ocr",
        4 => "scale",
        5 => "detect",
        6 => "measure",
        _ => "map",
    }
}

impl JobTable {
    /// Ids are assigned in creation order starting at one.
    pub open spec fn wf(self) -> bool {
        forall|i: int| 0 <= i < self.jobs@.len() ==> (#[trigger] self.jobs@[i]).id == i + 1
    }

    /// An empty table.
    pub fn new() -> (r: JobTable)
        ensures
            r.wf(),
            r.jobs@.len() == 0,
    {
        JobTable { jobs: Vec::new() }
    }

    /// Create a fresh `Pending` job and return its id: one more than every
    /// id handed out before, so ids are unique and increasing.
    pub fn create_job(&mut self) -> (id: u64)
        requires
            old(self).wf(),
            old(self).jobs@.len() < 0xffff_ffff_ffff_ffff,
        ensures
            final(self).wf(),
            id == old(self).jobs@.len() + 1,
            final(self).jobs@ == old(self).jobs@.push(
                Job { id, state: JobState::Pending, result_json: None },
            ),
    {
        let id = (self.jobs.len() as u64) + 1;
        self.jobs.push(Job { id, state: JobState::Pending, result_json: None });
        id
    }

    /// Overwrite the state of job `id`; ids outside the table leave it
    /// unchanged.
    pub fn set_state(&mut self, id: u64, state: JobState)
        requires
            old(self).wf(),
        ensures
            final(self).wf(),
            1 <= id <= old(self).jobs@.len() ==> final(self).jobs@ == old(self).jobs@.update(
                id - 1,
                Job {
                    id,
                    state,
                    result_json: old(self).jobs@[id - 1].result_json,
                },
            ),
            !(1 <= id <= old(self).jobs@.len()) ==> final(self).jobs@ == old(self).jobs@,
    {
        if 1 <= id && id <= self.jobs.len() as u64 {
            let i = (id - 1) as usize;
            let result_json = match &self.jobs[i].result_json {
                Some(s) => Some(s.clone()),
                None => None,
            };
            self.jobs.set(i, Job { id, state, result_json });
        }
    }

    /// Attach the result payload of job `id`; ids outside the table leave it
    /// unchanged.
    pub fn set_result(&mut self, id: u64, result: String)
        requires
            old(self).wf(),
        ensures
            final(self).wf(),
            1 <= id <= old(self).jobs@.len() ==> final(self).jobs@ == old(self).jobs@.update(
                id - 1,
                Job {
                    id,
                    state: old(self).jobs@[id - 1].state,
                    result_json: Some(result),
                },
            ),
            !(1 <= id <= old(self).jobs@.len()) ==> final(self).jobs@ == old(self).jobs@,
    {
        if 1 <= id && id <= self.jobs.len() as u64 {
            let i = (id - 1) as usize;
            let state = self.jobs[i].state.clone();
            self.jobs.set(i, Job { id, state, result_json: Some(result) });
        }
    }

    /// Look a job up: a pure function of the table, so repeated calls return
    /// identical values; an unknown id reports "not found" as `None`.
    pub fn job_status(&self, id: u64) -> (r: Option<&Job>)
        requires
            self.wf(),
        ensures
            1 <= id <= self.jobs@.len() ==> (r matches Some(j) && *j == self.jobs@[id - 1]),
            !(1 <= id <= self.jobs@.len()) ==> r is None,
    {
        if 1 <= id && id <= self.jobs.len() as u64 {
            Some(&self.jobs[(id - 1) as usize])
        } else {
            None
        }
    }

    /// The serialized result of job `id`, or the empty JSON object when the
    /// job is unknown or not yet finished. A pure function of the table.
    pub fn job_result(&self, id: u64) -> (r: String)
        requires
            self.wf(),
        ensures
            r@ == spec_job_result(*self, id),
    {
        if 1 <= id && id <= self.jobs.len() as u64 {
            match &self.jobs[(id - 1) as usize].result_json {
                Some(s) => {
                    return s.clone();
                },
                None => {},
            }
        }
        let empty = String::from_str("{}");
        empty
    }
}

/// What `job_result` returns: the stored payload, else `{}`.
pub open spec fn spec_job_result(t: JobTable, id: u64) -> Seq<char> {
    if 1 <= id <= t.jobs@.len() && t.jobs@[id - 1].result_json is Some {
        t.jobs@[id - 1].result_json->0@
    } else {
        "{}"@
    }
}

/// Squared length of one segment.
pub open spec fn seg_d2(g: Seg) -> nat {
    ((g.x1 - g.x0) * (g.x1 - g.x0) + (g.y1 - g.y0) * (g.y1 - g.y0)) as nat
}

/// Whole-pixel length of one segment.
pub open spec fn seg_px(g: Seg) -> nat {
    sqrt_floor(seg_d2(g))
}

/// Total whole-pixel length of the first `k` segments.
pub open spec fn segs_px(ss: Seq<Seg>, k: int) -> nat
    decreases k,
{
    if k <= 0 {
        0
    } else {
        segs_px(ss, k - 1) + seg_px(ss[k - 1])
    }
}

/// Total segment count over the first `k` tiles after vectorization.
pub open spec fn tiles_segs(ts: Seq<GrayImage>, k: int) -> nat
    decreases k,
{
    if k <= 0 {
        0
    } else {
        tiles_segs(ts, k - 1) + spec_vectorize(ts[k - 1]).len()
    }
}

/// Total whole-pixel lineal measure over the first `k` tiles.
pub open spec fn tiles_px(ts: Seq<GrayImage>, k: int) -> nat
    decreases k,
{
    if k <= 0 {
        0
    } else {
        tiles_px(ts, k - 1) + segs_px(
            spec_vectorize(ts[k - 1]),
            spec_vectorize(ts[k - 1]).len() as int,
        )
    }
}

/// Clamp to what a 64-bit counter can hold.
pub open spec fn cap64(x: int) -> int {
    if x > 0xffff_ffff_ffff_ffff {
        0xffff_ffff_ffff_ffff
    } else {
        x
    }
}

/// Clamp a pixel total to 48 bits before scaling it.
pub open spec fn cap48(x: int) -> int {
    if x > 0xffff_ffff_ffff {
        0xffff_ffff_ffff
    } else {
        x
    }
}

/// A pixel measure converted to thousandths of a unit by the scale `num/den`,
/// clamped to the 64-bit range.
pub open spec fn scaled_milli(px: int, num: int, den: int) -> int {
    if den <= 0 {
        0
    } else {
        cap64((cap48(px) * num * 1000) / den)
    }
}

/// The conversion factor to use: the parsed scale, or the unscaled default
/// `1/1` when no scale annotation was found.
pub open spec fn upp_of(ocr: Seq<char>) -> (int, int) {
    match spec_infer_scale(ocr) {
        Some((u, n, d)) => (n as int, d as int),
        None => (1int, 1int),
    }
}

/// Whole-pixel length of one segment, executable.
fn seg_length_px(g: &Seg) -> (r: u64)
    ensures
        r == seg_px(*g),
        r <= 0x2_0000_0000,
{
    let dx: u64 = if g.x1 >= g.x0 {
        (g.x1 - g.x0) as u64
    } else {
        (g.x0 - g.x1) as u64
    };
    let dy: u64 = if g.y1 >= g.y0 {
        (g.y1 - g.y0) as u64
    } else {
        (g.y0 - g.y1) as u64
    };
    proof {
        assert(0 <= dx * dx <= 0xffff_ffff * 0xffff_ffff && 0 <= dy * dy <= 0xffff_ffff
            * 0xffff_ffff) by (nonlinear_arith)
            requires
                0 <= dx <= 0xffff_ffff,
                0 <= dy <= 0xffff_ffff,
        ;
        assert((g.x1 - g.x0) * (g.x1 - g.x0) == dx * dx && (g.y1 - g.y0) * (g.y1 - g.y0) == dy
            * dy) by (nonlinear_arith)
            requires
                dx == if g.x1 >= g.x0 {
                    g.x1 - g.x0
                } else {
                    g.x0 - g.x1
                },
                dy == if g.y1 >= g.y0 {
                    g.y1 - g.y0
                } else {
                    g.y0 - g.y1
                },
        ;
    }
    let d2: u128 = (dx as u128) * (dx as u128) + (dy as u128) * (dy as u128);
    let d = isqrt128(d2);
    proof {
        crate::measure::lemma_sqrt_floor_bounds(d2 as nat);
        if d > 0x2_0000_0000 {
            assert(d * d > 0x2_0000_0000 * 0x2_0000_0000) by (nonlinear_arith)
                requires
                    d > 0x2_0000_0000,
            ;
            assert(false);
        }
    }
    d as u64
}

/// Vectorize every tile: the total segment count and the total whole-pixel
/// lineal measure, each clamped to its counter range.
pub fn measure_tiles(tiles: &Vec<GrayImage>) -> (r: (u64, u64))
    requires
        forall|i: int| 0 <= i < tiles@.len() ==> (#[trigger] tiles@[i]).wf(),
        tiles@.len() <= 4096,
    ensures
        r.0 as int == cap64(tiles_segs(tiles@, tiles@.len() as int) as int),
        r.1 as int == cap48(tiles_px(tiles@, tiles@.len() as int) as int),
{
    let mut segs_total: u128 = 0;
    let mut px_total: u128 = 0;
    let mut i: usize = 0;
    while i < tiles.len()
        invariant
            forall|k: int| 0 <= k < tiles@.len() ==> (#[trigger] tiles@[k]).wf(),
            tiles@.len() <= 4096,
            0 <= i <= tiles@.len(),
            segs_total == tiles_segs(tiles@, i as int),
            px_total == tiles_px(tiles@, i as int),
            segs_total <= (i as int) * 0x1_0000_0000_0000_0000,
            px_total <= (i as int) * 0x2_0000_0000_0000_0000_0000_0000,
        decreases tiles@.len() - i,
    {
        let segs = vectorize_gray(&tiles[i]);
        let mut j: usize = 0;
        let mut tile_px: u128 = 0;
        while j < segs.len()
            invariant
                segs@ == spec_vectorize(tiles@[i as int]),
                0 <= j <= segs@.len(),
                tile_px == segs_px(segs@, j as int),
                tile_px <= (j as int) * 0x2_0000_0000,
            decreases segs@.len() - j,
        {
            let d = seg_length_px(&segs[j]);
            proof {
                assert(((j + 1) as int) * 0x2_0000_0000 == (j as int) * 0x2_0000_0000
                    + 0x2_0000_0000) by (nonlinear_arith);
            }
            tile_px = tile_px + (d as u128);
            j = j + 1;
        }
        proof {
            assert((segs@.len() as int) * 0x2_0000_0000 <= 0x1_0000_0000_0000_0000 * 0x2_0000_0000)
                by (nonlinear_arith)
                requires
                    segs@.len() <= 0x1_0000_0000_0000_0000,
            ;
            assert(((i + 1) as int) * 0x1_0000_0000_0000_0000 == (i as int)
                * 0x1_0000_0000_0000_0000 + 0x1_0000_0000_0000_0000) by (nonlinear_arith);
            assert(((i + 1) as int) * 0x2_0000_0000_0000_0000_0000_0000 == (i as int)
                * 0x2_0000_0000_0000_0000_0000_0000 + 0x2_0000_0000_0000_0000_0000_0000)
                by (nonlinear_arith);
            assert((i as int) * 0x1_0000_0000_0000_0000 <= 4096 * 0x1_0000_0000_0000_0000
                && (i as int) * 0x2_0000_0000_0000_0000_0000_0000 <= 4096
                * 0x2_0000_0000_0000_0000_0000_0000) by (nonlinear_arith)
                requires
                    0 <= i <= 4096,
            ;
        }
        segs_total = segs_total + (segs.len() as u128);
        px_total = px_total + tile_px;
        i = i + 1;
    }
    let s64: u64 = if segs_total > 0xffff_ffff_ffff_ffff {
        0xffff_ffff_ffff_ffff
    } else {
        segs_total as u64
    };
    let p64: u64 = if px_total > 0xffff_ffff_ffff {
        0xffff_ffff_ffff
    } else {
        px_total as u64
    };
    (s64, p64)
}

/// Scale a (48-bit clamped) pixel measure to thousandths of a unit.
fn scale_measure(px: u64, num: u64, den: u64) -> (r: u64)
    requires
        px <= 0xffff_ffff_ffff,
        num <= 1000000000000000000,
        den >= 1,
    ensures
        r as int == scaled_milli(px as int, num as int, den as int),
{
    proof {
        assert((px as int) * (num as int) <= 0xffff_ffff_ffff * 1000000000000000000)
            by (nonlinear_arith)
            requires
                0 <= px <= 0xffff_ffff_ffff,
                0 <= num <= 1000000000000000000,
        ;
        assert(((px as int) * (num as int)) * 1000 >= 0) by (nonlinear_arith)
            requires
                0 <= px,
                0 <= num,
        ;
    }
    let raw: u128 = (px as u128) * (num as u128) * 1000u128;
    let q: u128 = raw / (den as u128);
    if q > 0xffff_ffff_ffff_ffff {
        0xffff_ffff_ffff_ffff
    } else {
        q as u64
    }
}

/// Drive one job through the fixed stage sequence. The caller supplies the
/// outcome of opening the document, the rasterized tiles, the OCR text and
/// the detections; this runs every computational stage and leaves the job
/// terminal: `Failed` with the open error's reason (the payload untouched),
/// or `Succeeded` with the rendered result payload attached.
pub fn run_pipeline(
    table: &mut JobTable,
    id: u64,
    pdf_path: &str,
    open_result: Result<u32, String>,
    tiles: Vec<GrayImage>,
    ocr_text: String,
    detections: Vec<Det>,
)
    requires
        old(table).wf(),
        1 <= id <= old(table).jobs@.len(),
        forall|i: int| 0 <= i < tiles@.len() ==> (#[trigger] tiles@[i]).wf(),
        tiles@.len() <= 4096,
        detections@.len() < 0x100000000,
    ensures
        final(table).wf(),
        final(table).jobs@.len() == old(table).jobs@.len(),
        forall|i: int|
            0 <= i < final(table).jobs@.len() && i != id - 1 ==> final(table).jobs@[i] == old(
                table,
            ).jobs@[i],
        final(table).jobs@[id - 1].id == id,
        open_result matches Err(e) ==> (final(table).jobs@[id - 1].state == JobState::Failed(e)
            && final(table).jobs@[id - 1].result_json == old(table).jobs@[id - 1].result_json),
        open_result matches Ok(pages) ==> (final(table).jobs@[id - 1].state == JobState::Succeeded
            && (final(table).jobs@[id - 1].result_json matches Some(s) && s@ == spec_render(
            pdf_path@,
            pages as int,
            upp_of(ocr_text@).0,
            upp_of(ocr_text@).1,
            cap64(tiles_segs(tiles@, tiles@.len() as int) as int),
            detections@.len() as int,
            scaled_milli(
                tiles_px(tiles@, tiles@.len() as int) as int,
                upp_of(ocr_text@).0,
                upp_of(ocr_text@).1,
            ),
            0,
        ))),
{
    table.set_state(
        id,
        JobState::Running(JobProgress { stage: String::from_str(stage_label(0)), pct: 5 }),
    );
    let pages: u32 = match open_result {
        Ok(n) => n,
        Err(e) => {
            table.set_state(id, JobState::Failed(e));
            return ;
        },
    };
    table.set_state(
        id,
        JobState::Running(JobProgress { stage: String::from_str(stage_label(1)), pct: 15 }),
    );
    table.set_state(
        id,
        JobState::Running(JobProgress { stage: String::from_str(stage_label(2)), pct: 30 }),
    );
    let (total_segments, total_px) = measure_tiles(&tiles);
    table.set_state(
        id,
        JobState::Running(JobProgress { stage: String::from_str(stage_label(3)), pct: 45 }),
    );
    table.set_state(
        id,
        JobState::Running(JobProgress { stage: String::from_str(stage_label(4)), pct: 55 }),
    );
    let scale = infer_scale_from_text(ocr_text);
    let (num, den): (u64, u64) = match &scale {
        Some(sc) => (sc.num, sc.den),
        None => (1, 1),
    };
    table.set_state(
        id,
        JobState::Running(JobProgress { stage: String::from_str(stage_label(5)), pct: 70 }),
    );
    table.set_state(
        id,
        JobState::Running(JobProgress { stage: String::from_str(stage_label(6)), pct: 82 }),
    );
    let lineal_milli = scale_measure(total_px, num, den);
    let mapping = crate::map::map_to_line_items(&detections, lineal_milli, 0);
    table.set_state(
        id,
        JobState::Running(JobProgress { stage: String::from_str(stage_label(7)), pct: 92 }),
    );
    let payload = render_result(
        pdf_path,
        pages,
        num,
        den,
        total_segments,
        detections.len() as u64,
        mapping.summary.lineal_milli,
        mapping.summary.area_milli,
    );
    table.set_result(id, payload);
    table.set_state(id, JobState::Succeeded);
}

} // verus!

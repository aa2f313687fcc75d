//! The workload generator.
//!
//! A [`Workload`] is compiled in two stages.  First every section is
//! expanded into a flat command sequence: ordered sections keep their
//! declared statement order, unordered sections shuffle the expanded
//! statement instances through the seeded random stream, and literal
//! command sections pass through unchanged.  Second, the flat sequence
//! runs through stateful per-command handlers that consult and mutate the
//! generator state — the random stream, a monotone next-key counter, the
//! ordered list of live `(key, size)` pairs, and byte-usage counters — to
//! produce the concrete [`RealCommand`] sequence and a peak byte count.
//!
//! The whole pipeline is deterministic: the model of the result is a
//! function of the workload alone (`spec_compile`), so two compilations
//! of one workload agree bit for bit.

use crate::rng::{apply_perm, rng_perm, rng_range, RngModel, RngUse, StreamRng};
use crate::{Bytes, Command, CommandV, Freq, RealCommand, Section, SectionV, Statement, Workload,
    WorkloadV};
use vstd::prelude::*;

verus! {

broadcast use vstd::seq::axiom_seq_index_decreases, vstd::seq::axiom_seq_subrange_decreases;

/// The model of the generator state during one compilation.
#[verifier::ext_equal]
pub ghost struct GenModel {
    /// The random stream: seed and uses so far.
    pub rng: RngModel,
    /// The key the next allocation will receive; keys start at 1.
    pub next: int,
    /// The live keys with their simulated sizes, in creation order.
    pub live: Seq<(u128, usize)>,
    /// The concrete commands emitted so far.
    pub cmds: Seq<RealCommand>,
    /// The keys handed out so far by `NewPut`/`Embed`, in emission order.
    pub allocs: Seq<int>,
    /// The greatest simulated live byte total seen so far.
    pub peak: int,
}

/// The simulated live byte total: the sum of the sizes of the live keys.
pub open spec fn sum_sizes(s: Seq<(u128, usize)>) -> int
    decreases s.len(),
{
    if s.len() == 0 {
        0
    } else {
        s[0].1 + sum_sizes(s.drop_first())
    }
}

/// Well-formedness of a generator state model: keys were handed out as
/// 1, 2, 3, ... and every allocation and every live key left a command
/// behind, so the counters stay small; the peak bounds the current total.
pub open spec fn model_wf(m: GenModel) -> bool {
    &&& m.next == 1 + m.allocs.len()
    &&& forall|i: int| 0 <= i < m.allocs.len() ==> #[trigger] m.allocs[i] == i + 1
    &&& m.next <= 1 + m.cmds.len()
    &&& m.live.len() <= m.cmds.len()
    &&& sum_sizes(m.live) <= m.peak
    &&& 0 <= m.peak
}

/// The model a compilation starts from: the given seed (or 0), an unused
/// stream, key counter 1, and nothing live, emitted or counted.
pub open spec fn init_model(seed: Option<u64>) -> GenModel {
    GenModel {
        rng: RngModel {
            seed: if seed is Some {
                seed->0
            } else {
                0
            },
            uses: Seq::empty(),
        },
        next: 1,
        live: Seq::empty(),
        cmds: Seq::empty(),
        allocs: Seq::empty(),
        peak: 0,
    }
}

proof fn lemma_sum_sizes_nonneg(s: Seq<(u128, usize)>)
    ensures
        0 <= sum_sizes(s),
    decreases s.len(),
{
    if s.len() > 0 {
        lemma_sum_sizes_nonneg(s.drop_first());
    }
}

proof fn lemma_sum_sizes_concat(a: Seq<(u128, usize)>, b: Seq<(u128, usize)>)
    ensures
        sum_sizes(a + b) == sum_sizes(a) + sum_sizes(b),
    decreases a.len(),
{
    if a.len() == 0 {
        assert(a + b =~= b);
    } else {
        assert((a + b).drop_first() =~= a.drop_first() + b);
        lemma_sum_sizes_concat(a.drop_first(), b);
    }
}

proof fn lemma_sum_sizes_push(s: Seq<(u128, usize)>, e: (u128, usize))
    ensures
        sum_sizes(s.push(e)) == sum_sizes(s) + e.1,
{
    assert(s.push(e) =~= s + seq![e]);
    lemma_sum_sizes_concat(s, seq![e]);
    lemma_sum_sizes_singleton(e);
}

proof fn lemma_sum_sizes_singleton(e: (u128, usize))
    ensures
        sum_sizes(seq![e]) == e.1,
{
    assert(seq![e].drop_first().len() == 0);
    assert(sum_sizes(seq![e].drop_first()) == 0);
    assert(sum_sizes(seq![e]) == e.1 + sum_sizes(seq![e].drop_first()));
}

proof fn lemma_sum_sizes_bound(s: Seq<(u128, usize)>)
    ensures
        sum_sizes(s) <= s.len() * (usize::MAX as int),
    decreases s.len(),
{
    if s.len() == 0 {
    } else {
        lemma_sum_sizes_bound(s.drop_first());
        assert(s.len() * (usize::MAX as int) == (s.len() - 1) * (usize::MAX as int) + (
        usize::MAX as int)) by (nonlinear_arith);
    }
}

/// The total splits around any position.
proof fn lemma_sum_sizes_split(s: Seq<(u128, usize)>, i: int)
    requires
        0 <= i < s.len(),
    ensures
        sum_sizes(s) == sum_sizes(s.take(i)) + s[i].1 + sum_sizes(s.skip(i + 1)),
{
    assert(s =~= s.take(i) + seq![s[i]] + s.skip(i + 1));
    lemma_sum_sizes_concat(s.take(i) + seq![s[i]], s.skip(i + 1));
    lemma_sum_sizes_concat(s.take(i), seq![s[i]]);
    lemma_sum_sizes_singleton(s[i]);
}

proof fn lemma_sum_sizes_update(s: Seq<(u128, usize)>, i: int, e: (u128, usize))
    requires
        0 <= i < s.len(),
    ensures
        sum_sizes(s.update(i, e)) == sum_sizes(s) - s[i].1 + e.1,
{
    lemma_sum_sizes_split(s, i);
    lemma_sum_sizes_split(s.update(i, e), i);
    assert(s.update(i, e).take(i) =~= s.take(i));
    assert(s.update(i, e).skip(i + 1) =~= s.skip(i + 1));
}

proof fn lemma_sum_sizes_remove(s: Seq<(u128, usize)>, i: int)
    requires
        0 <= i < s.len(),
    ensures
        sum_sizes(s.remove(i)) == sum_sizes(s) - s[i].1,
{
    lemma_sum_sizes_split(s, i);
    assert(s.remove(i) =~= s.take(i) + s.skip(i + 1));
    lemma_sum_sizes_concat(s.take(i), s.skip(i + 1));
}

/// The effect of one `NewPut` (or `Embed`): allocate the next key,
/// append it to the live list, emit the concrete put, and raise the peak
/// if the new total passes it.
pub open spec fn spec_put(m: GenModel, bytes: usize, embed: bool) -> GenModel {
    let key = m.next as u128;
    let total = sum_sizes(m.live) + bytes;
    GenModel {
        rng: m.rng,
        next: m.next + 1,
        live: m.live.push((key, bytes)),
        cmds: m.cmds.push(
            if embed {
                RealCommand::Embed(key, bytes)
            } else {
                RealCommand::Put(key, bytes)
            },
        ),
        allocs: m.allocs.push(m.next),
        peak: if total > m.peak {
            total
        } else {
            m.peak
        },
    }
}

/// The index selection shared by `Get` and `Delete`, over a live list of
/// length `len >= 1`.  The window `[low, high]` in percent becomes the
/// position window `[x, y]` with `x = len*low/100` and `y = len*high/100`
/// (each capped at `len` so that oversized percentages saturate instead
/// of leaving the list).  A well-formed window draws a position uniformly
/// from `[x, y]`.  A single-point window still draws one word — to keep
/// the random stream consistent regardless of window width — and selects
/// `x`; an inverted window (`x > y`, a malformed request accepted as
/// given) behaves the same way, a degenerate selection rather than an
/// error.  The selected position is made a 0-based index by subtracting
/// one, saturating at zero.
pub open spec fn spec_calc_index(rng: RngModel, len: nat, left: u8, right: u8) -> (int, RngModel)
    recommends
        len >= 1,
{
    let x = cap_at(len * left / 100, len as int);
    let y = cap_at(len * right / 100, len as int);
    if left == right || x > y || x == usize::MAX as int {
        (sat_dec(x), RngModel { seed: rng.seed, uses: rng.uses.push(RngUse::Word) })
    } else {
        let hi = if y < usize::MAX as int {
            y + 1
        } else {
            usize::MAX as int
        };
        let draw = rng_range(rng.seed, rng.uses, x as usize, hi as usize) as int;
        let z = if x <= draw < hi {
            draw
        } else {
            x
        };
        (
            sat_dec(z),
            RngModel {
                seed: rng.seed,
                uses: rng.uses.push(RngUse::Range { lo: x as usize, hi: hi as usize }),
            },
        )
    }
}

/// `v`, capped at `bound`.
pub open spec fn cap_at(v: int, bound: int) -> int {
    if v > bound {
        bound
    } else {
        v
    }
}

/// `v - 1`, saturating at zero.
pub open spec fn sat_dec(v: int) -> int {
    if v == 0 {
        0
    } else {
        v - 1
    }
}

/// The selected index lies inside the live list.
proof fn lemma_calc_index_in_range(rng: RngModel, len: nat, left: u8, right: u8)
    requires
        len >= 1,
    ensures
        0 <= spec_calc_index(rng, len, left, right).0 < len,
{
}

/// The effect of one `Get(left, right)`: on an empty live list, nothing;
/// otherwise emit the selected live pair unchanged.
pub open spec fn spec_get(m: GenModel, left: u8, right: u8) -> GenModel {
    if m.live.len() == 0 {
        m
    } else {
        let (i, rng2) = spec_calc_index(m.rng, m.live.len(), left, right);
        let kv = m.live[i];
        GenModel { rng: rng2, cmds: m.cmds.push(RealCommand::Get(kv.0, kv.1)), ..m }
    }
}

/// The effect of one `Delete(left, right)`: on an empty live list,
/// nothing; otherwise emit the selected live pair and remove it.
pub open spec fn spec_delete(m: GenModel, left: u8, right: u8) -> GenModel {
    if m.live.len() == 0 {
        m
    } else {
        let (i, rng2) = spec_calc_index(m.rng, m.live.len(), left, right);
        let kv = m.live[i];
        GenModel {
            rng: rng2,
            live: m.live.remove(i),
            cmds: m.cmds.push(RealCommand::Delete(kv.0, kv.1)),
            ..m
        }
    }
}

/// The effect of one `Overwrite`: on an empty live list, nothing;
/// otherwise choose a position uniformly, replace that slot's size in
/// place (key unchanged), emit a concrete put for the key, and raise the
/// peak if the new total passes it.
pub open spec fn spec_overwrite(m: GenModel, bytes: usize) -> GenModel {
    if m.live.len() == 0 {
        m
    } else {
        let n = m.live.len();
        let draw = rng_range(m.rng.seed, m.rng.uses, 0, n as usize) as int;
        let z = if 0 <= draw < n {
            draw
        } else {
            0
        };
        let key = m.live[z].0;
        let total = sum_sizes(m.live) - m.live[z].1 + bytes;
        GenModel {
            rng: RngModel {
                seed: m.rng.seed,
                uses: m.rng.uses.push(RngUse::Range { lo: 0, hi: n as usize }),
            },
            live: m.live.update(z, (key, bytes)),
            cmds: m.cmds.push(RealCommand::Put(key, bytes)),
            peak: if total > m.peak {
                total
            } else {
                m.peak
            },
            ..m
        }
    }
}

/// The effect of one `DeleteRange(left, right)`: on an empty live list,
/// nothing.  Otherwise, with `x = len*low/100` and `y = len*high/100`
/// (capped at `len`), emit a range delete between the keys at positions
/// `x` and `y` (each capped at `len - 1` to stay inside the list) and
/// remove the half-open band `[x, y)` — nothing when `x >= y`.  No random
/// value is drawn.
pub open spec fn spec_delete_range(m: GenModel, left: u8, right: u8) -> GenModel {
    if m.live.len() == 0 {
        m
    } else {
        let n = m.live.len() as int;
        let x = cap_at(n * left / 100, n);
        let y = cap_at(n * right / 100, n);
        let kx = m.live[cap_at(x, n - 1)].0;
        let ky = m.live[cap_at(y, n - 1)].0;
        let live2 = if x <= y {
            m.live.take(x) + m.live.skip(y)
        } else {
            m.live
        };
        GenModel { live: live2, cmds: m.cmds.push(RealCommand::DeleteRange(kx, ky)), ..m }
    }
}

/// The effect of one non-`Times` command on the generator state.
pub open spec fn spec_step(m: GenModel, c: CommandV) -> GenModel {
    match c {
        CommandV::NewPut(b) => spec_put(m, b, false),
        CommandV::Embed(b) => spec_put(m, b, true),
        CommandV::Overwrite(b) => spec_overwrite(m, b),
        CommandV::RandomGet => spec_get(m, 0, 100),
        CommandV::Get(l, r) => spec_get(m, l, r),
        CommandV::RandomDelete => spec_delete(m, 0, 100),
        CommandV::Delete(l, r) => spec_delete(m, l, r),
        CommandV::DeleteRange(l, r) => spec_delete_range(m, l, r),
        CommandV::Times(_n, _cs) => m,  // handled by spec_run
    }
}

/// The nesting depth of `Times` commands below a command.
pub open spec fn cv_height(c: CommandV) -> nat
    decreases c,
{
    match c {
        CommandV::Times(_n, cs) => 1 + cvs_height(cs),
        _ => 0,
    }
}

/// The greatest nesting depth over a command sequence.
pub open spec fn cvs_height(cs: Seq<CommandV>) -> nat
    decreases cs,
{
    if cs.len() == 0 {
        0nat
    } else {
        let h0 = cv_height(cs[0]);
        let hr = cvs_height(cs.drop_first());
        if h0 > hr {
            h0
        } else {
            hr
        }
    }
}

proof fn lemma_cvs_height_index(cs: Seq<CommandV>, i: int)
    requires
        0 <= i < cs.len(),
    ensures
        cv_height(cs[i]) <= cvs_height(cs),
    decreases cs.len(),
{
    if i > 0 {
        lemma_cvs_height_index(cs.drop_first(), i - 1);
    }
}

proof fn lemma_cvs_height_skip(cs: Seq<CommandV>, i: int)
    requires
        0 <= i <= cs.len(),
    ensures
        cvs_height(cs.skip(i)) <= cvs_height(cs),
    decreases i,
{
    if i > 0 {
        assert(cs.skip(i) =~= cs.drop_first().skip(i - 1));
        lemma_cvs_height_skip(cs.drop_first(), i - 1);
        assert(cvs_height(cs.drop_first()) <= cvs_height(cs));
    } else {
        assert(cs.skip(0) =~= cs);
    }
}

/// Running a command sequence through the generator, front to back.
pub open spec fn spec_run(m: GenModel, cs: Seq<CommandV>) -> GenModel
    decreases cvs_height(cs), 0nat, cs.len(),
    when cs.len() >= 0
    via spec_run_decreases
{
    if cs.len() == 0 {
        m
    } else {
        let m1 = match cs[0] {
            CommandV::Times(n, inner) => spec_run_times(m, inner, n as nat),
            _ => spec_step(m, cs[0]),
        };
        spec_run(m1, cs.drop_first())
    }
}

/// Replaying a command sequence a number of times.
pub open spec fn spec_run_times(m: GenModel, cs: Seq<CommandV>, k: nat) -> GenModel
    decreases cvs_height(cs), k, 0nat,
    when k >= 0
    via spec_run_times_decreases
{
    if k == 0 {
        m
    } else {
        spec_run_times(spec_run(m, cs), cs, (k - 1) as nat)
    }
}

#[via_fn]
proof fn spec_run_decreases(m: GenModel, cs: Seq<CommandV>) {
    if cs.len() > 0 {
        lemma_cvs_height_index(cs, 0);
        lemma_cvs_height_skip(cs, 1);
        assert(cs.drop_first() =~= cs.skip(1));
        match cs[0] {
            CommandV::Times(_n, inner) => {
                assert(cv_height(cs[0]) == 1 + cvs_height(inner));
            },
            _ => {},
        }
    }
}

#[via_fn]
proof fn spec_run_times_decreases(m: GenModel, cs: Seq<CommandV>, k: nat) {
}

/// `k` copies of a statement's command list.
pub open spec fn repeat_stmt(st: Seq<CommandV>, k: nat) -> Seq<Seq<CommandV>>
    decreases k,
{
    if k == 0 {
        Seq::empty()
    } else {
        repeat_stmt(st, (k - 1) as nat).push(st)
    }
}

/// The number of times a `(frequency, statement)` entry of a section
/// with the given iteration count is instantiated: truncating integer
/// division, so the total expanded count can fall short of `iter` when
/// the frequencies do not divide evenly.
pub open spec fn entry_count(iter: usize, freq: u8) -> int {
    iter * freq / 100
}

/// The expanded statement instances of a section body, entry by entry in
/// declaration order.
pub open spec fn spec_expand_entries(iter: usize, entries: Seq<(u8, Seq<CommandV>)>) -> Seq<
    Seq<CommandV>,
>
    decreases entries.len(),
{
    if entries.len() == 0 {
        Seq::empty()
    } else {
        repeat_stmt(entries[0].1, entry_count(iter, entries[0].0) as nat) + spec_expand_entries(
            iter,
            entries.drop_first(),
        )
    }
}

/// The flat command sequence of one section, together with the state of
/// the random stream after it: ordered sections expand in declaration
/// order; unordered sections shuffle the expanded statement instances
/// through the stream before flattening; literal sections pass through.
pub open spec fn spec_expand_section(rng: RngModel, s: SectionV) -> (RngModel, Seq<CommandV>) {
    match s {
        SectionV::Commands(cs) => (rng, cs),
        SectionV::Ordered(iter, entries) => (rng, spec_expand_entries(iter, entries).flatten()),
        SectionV::Unordered(iter, entries) => {
            let sts = spec_expand_entries(iter, entries);
            let p = rng_perm(rng.seed, rng.uses, sts.len());
            (
                RngModel { seed: rng.seed, uses: rng.uses.push(RngUse::Shuffle { len: sts.len() }) },
                apply_perm(sts, p).flatten(),
            )
        },
    }
}

/// The flat command sequence of a whole workload, section after section,
/// with the state of the random stream after all shuffles.
pub open spec fn spec_expand_workload(rng: RngModel, sections: Seq<SectionV>) -> (
    RngModel,
    Seq<CommandV>,
)
    decreases sections.len(),
{
    if sections.len() == 0 {
        (rng, Seq::empty())
    } else {
        let (rng1, head) = spec_expand_section(rng, sections[0]);
        let (rng2, tail) = spec_expand_workload(rng1, sections.drop_first());
        (rng2, head + tail)
    }
}

/// The generator state after compiling a whole workload: every section
/// is expanded first (consuming shuffle draws), then the flat command
/// sequence runs through the per-command handlers.
pub open spec fn spec_compile(w: WorkloadV) -> GenModel {
    let m0 = init_model(w.seed);
    let (rng1, flat) = spec_expand_workload(m0.rng, w.sections);
    spec_run(GenModel { rng: rng1, ..m0 }, flat)
}

/// The generator state during one compilation: the seeded random stream,
/// the next-key counter, the live `(key, size)` list in creation order,
/// the emitted commands, and the byte-usage counters.
pub struct State {
    rng: StreamRng,
    next: u128,
    live_ids: Vec<(u128, Bytes)>,
    /// The concrete commands emitted so far.
    pub commands: Vec<RealCommand>,
    peek_bytes: u128,
    current_bytes: u128,
    allocs: Ghost<Seq<int>>,
}

impl State {
    /// The model of this state.
    pub closed spec fn model(&self) -> GenModel {
        GenModel {
            rng: self.rng.model(),
            next: self.next as int,
            live: self.live_ids@,
            cmds: self.commands@,
            allocs: self.allocs@,
            peak: self.peek_bytes as int,
        }
    }

    /// The internal invariant: the byte counter equals the live total,
    /// and the model is well formed.
    pub closed spec fn inv(&self) -> bool {
        &&& self.current_bytes as int == sum_sizes(self.live_ids@)
        &&& model_wf(self.model())
    }

    /// A fresh state for one compilation, seeded with the given seed or
    /// with 0.
    pub fn new(seed: Option<u64>) -> (s: State)
        ensures
            s.model() == init_model(seed),
            s.inv(),
    {
        let s = State {
            rng: StreamRng::new(match seed {
                Some(v) => v,
                None => 0,
            }),
            next: 1,
            live_ids: Vec::new(),
            commands: Vec::new(),
            peek_bytes: 0,
            current_bytes: 0,
            allocs: Ghost(Seq::empty()),
        };
        proof {
            assert(s.model() =~= init_model(seed));
        }
        s
    }
}

/// A position count times a percentage fits comfortably in 128 bits.
proof fn lemma_perc_product_fits(len: usize, p: u8)
    ensures
        0 <= (len as int) * (p as int) <= (usize::MAX as int) * 255,
        (usize::MAX as int) * 255 < u128::MAX as int,
{
    assert((len as int) * (p as int) <= (usize::MAX as int) * 255) by (nonlinear_arith)
        requires
            0 <= len as int <= usize::MAX as int,
            0 <= p as int <= 255,
    ;
    assert((len as int) * (p as int) >= 0) by (nonlinear_arith)
        requires
            0 <= len as int,
            0 <= p as int,
    ;
}

/// The index selection of `Get` and `Delete` as executable code; see
/// `spec_calc_index`.
fn calc_index(rng: &mut StreamRng, len: usize, left: u8, right: u8) -> (z: usize)
    requires
        len >= 1,
    ensures
        z as int == spec_calc_index(old(rng).model(), len as nat, left, right).0,
        final(rng).model() == spec_calc_index(old(rng).model(), len as nat, left, right).1,
        z < len,
{
    proof {
        lemma_perc_product_fits(len, left);
        lemma_perc_product_fits(len, right);
    }
    let x128: u128 = (len as u128) * (left as u128) / 100;
    let x: usize = if x128 > len as u128 {
        len
    } else {
        x128 as usize
    };
    let y128: u128 = (len as u128) * (right as u128) / 100;
    let y: usize = if y128 > len as u128 {
        len
    } else {
        y128 as usize
    };
    let z: usize;
    if left == right || x > y || x == usize::MAX {
        let _burn = rng.next_word();
        z = x;
    } else {
        let hi = if y < usize::MAX {
            y + 1
        } else {
            usize::MAX
        };
        z = rng.next_in_range(x, hi);
    }
    proof {
        lemma_calc_index_in_range(old(rng).model(), len as nat, left, right);
    }
    if z == 0 {
        0
    } else {
        z - 1
    }
}

/// Allocate the next key with a value of the given size; `embed` chooses
/// the concrete command kind.
fn alloc_put(state: &mut State, bytes: Bytes, embed: bool)
    requires
        old(state).inv(),
    ensures
        final(state).inv(),
        final(state).model() == spec_put(old(state).model(), bytes, embed),
{
    let ghost m0 = state.model();
    let ncmds = state.commands.len();
    let nlive = state.live_ids.len();
    proof {
        lemma_sum_sizes_nonneg(m0.live);
        lemma_sum_sizes_bound(m0.live);
        assert(sum_sizes(m0.live) + bytes < u128::MAX) by {
            assert(nlive as int * (usize::MAX as int) <= (usize::MAX as int) * (usize::MAX as int))
                by (nonlinear_arith)
                requires
                    0 <= nlive as int <= usize::MAX as int,
            ;
            assert((usize::MAX as int) * (usize::MAX as int) + (usize::MAX as int) < u128::MAX
                as int) by (nonlinear_arith)
                requires
                    usize::MAX as int <= u64::MAX as int,
            ;
        }
    }
    let lumpid = state.next;
    state.next = state.next + 1;
    state.live_ids.push((lumpid, bytes));
    if embed {
        state.commands.push(RealCommand::Embed(lumpid, bytes));
    } else {
        state.commands.push(RealCommand::Put(lumpid, bytes));
    }
    state.current_bytes = state.current_bytes + (bytes as u128);
    if state.current_bytes > state.peek_bytes {
        state.peek_bytes = state.current_bytes;
    }
    state.allocs = Ghost(m0.allocs.push(m0.next));
    proof {
        lemma_sum_sizes_push(m0.live, (lumpid, bytes));
        assert(state.model() =~= spec_put(m0, bytes, embed));
    }
}

/// The `NewPut` handler: allocate the next key, append it to the live
/// list, and emit the concrete put.
fn put(state: &mut State, bytes: Bytes)
    requires
        old(state).inv(),
    ensures
        final(state).inv(),
        final(state).model() == spec_put(old(state).model(), bytes, false),
{
    alloc_put(state, bytes, false);
}

/// The `Embed` handler: as `put`, but the payload is inlined.
fn embed(state: &mut State, bytes: Bytes)
    requires
        old(state).inv(),
    ensures
        final(state).inv(),
        final(state).model() == spec_put(old(state).model(), bytes, true),
{
    alloc_put(state, bytes, true);
}

/// The `Get` handler: a no-op on an empty live list; otherwise emit the
/// selected live pair, leaving the list unchanged.
fn get(state: &mut State, left: u8, right: u8)
    requires
        old(state).inv(),
    ensures
        final(state).inv(),
        final(state).model() == spec_get(old(state).model(), left, right),
{
    let len = state.live_ids.len();
    if len == 0 {
        return ;
    }
    let ghost m0 = state.model();
    let z = calc_index(&mut state.rng, len, left, right);
    let kv: (u128, Bytes) = state.live_ids[z];
    state.commands.push(RealCommand::Get(kv.0, kv.1));
    proof {
        assert(state.model() =~= spec_get(m0, left, right));
    }
}

/// The `Delete` handler: a no-op on an empty live list; otherwise emit
/// the selected live pair, remove it from the list and release its bytes.
fn delete(state: &mut State, left: u8, right: u8)
    requires
        old(state).inv(),
    ensures
        final(state).inv(),
        final(state).model() == spec_delete(old(state).model(), left, right),
{
    let len = state.live_ids.len();
    if len == 0 {
        return ;
    }
    let ghost m0 = state.model();
    let z = calc_index(&mut state.rng, len, left, right);
    let kv: (u128, Bytes) = state.live_ids[z];
    proof {
        lemma_sum_sizes_split(m0.live, z as int);
        lemma_sum_sizes_nonneg(m0.live.take(z as int));
        lemma_sum_sizes_nonneg(m0.live.skip(z as int + 1));
        lemma_sum_sizes_remove(m0.live, z as int);
    }
    state.current_bytes = state.current_bytes - (kv.1 as u128);
    state.commands.push(RealCommand::Delete(kv.0, kv.1));
    state.live_ids.remove(z);
    proof {
        assert(state.model() =~= spec_delete(m0, left, right));
    }
}

/// The `Overwrite` handler: a no-op on an empty live list; otherwise
/// replace the size of a uniformly chosen slot in place (key unchanged),
/// emit a concrete put for that key, and adjust the byte counters.
fn overwrite(state: &mut State, bytes: Bytes)
    requires
        old(state).inv(),
    ensures
        final(state).inv(),
        final(state).model() == spec_overwrite(old(state).model(), bytes),
{
    let len = state.live_ids.len();
    if len == 0 {
        return ;
    }
    let ghost m0 = state.model();
    let ncmds = state.commands.len();
    let z = state.rng.next_in_range(0, len);
    let kv: (u128, Bytes) = state.live_ids[z];
    state.live_ids.set(z, (kv.0, bytes));
    state.commands.push(RealCommand::Put(kv.0, bytes));
    proof {
        lemma_sum_sizes_split(m0.live, z as int);
        lemma_sum_sizes_nonneg(m0.live.take(z as int));
        lemma_sum_sizes_nonneg(m0.live.skip(z as int + 1));
        lemma_sum_sizes_update(m0.live, z as int, (kv.0, bytes));
        lemma_sum_sizes_nonneg(state.live_ids@);
        lemma_sum_sizes_bound(state.live_ids@);
        assert(sum_sizes(state.live_ids@) < u128::MAX) by {
            assert(len as int * (usize::MAX as int) <= (usize::MAX as int) * (usize::MAX as int))
                by (nonlinear_arith)
                requires
                    0 <= len as int <= usize::MAX as int,
            ;
            assert((usize::MAX as int) * (usize::MAX as int) + (usize::MAX as int) < u128::MAX
                as int) by (nonlinear_arith)
                requires
                    usize::MAX as int <= u64::MAX as int,
            ;
        }
    }
    state.current_bytes = state.current_bytes - (kv.1 as u128) + (bytes as u128);
    if state.current_bytes > state.peek_bytes {
        state.peek_bytes = state.current_bytes;
    }
    proof {
        assert(state.model() =~= spec_overwrite(m0, bytes));
    }
}

/// The `DeleteRange` handler: a no-op on an empty live list; otherwise
/// emit a range delete between the keys at the window's bounds and drain
/// the half-open band between them.
fn delete_range(state: &mut State, left: u8, right: u8)
    requires
        old(state).inv(),
    ensures
        final(state).inv(),
        final(state).model() == spec_delete_range(old(state).model(), left, right),
{
    let len = state.live_ids.len();
    if len == 0 {
        return ;
    }
    let ghost m0 = state.model();
    proof {
        lemma_perc_product_fits(len, left);
        lemma_perc_product_fits(len, right);
    }
    let x128: u128 = (len as u128) * (left as u128) / 100;
    let x: usize = if x128 > len as u128 {
        len
    } else {
        x128 as usize
    };
    let y128: u128 = (len as u128) * (right as u128) / 100;
    let y: usize = if y128 > len as u128 {
        len
    } else {
        y128 as usize
    };
    let ix = if x > len - 1 {
        len - 1
    } else {
        x
    };
    let iy = if y > len - 1 {
        len - 1
    } else {
        y
    };
    let kx = state.live_ids[ix].0;
    let ky = state.live_ids[iy].0;
    state.commands.push(RealCommand::DeleteRange(kx, ky));
    if x <= y {
        let mut tail = state.live_ids.split_off(y);
        let removed = state.live_ids.split_off(x);
        state.live_ids.append(&mut tail);
        proof {
            assert(m0.live =~= m0.live.take(x as int) + m0.live.subrange(x as int, y as int)
                + m0.live.skip(y as int));
            lemma_sum_sizes_concat(
                m0.live.take(x as int) + m0.live.subrange(x as int, y as int),
                m0.live.skip(y as int),
            );
            lemma_sum_sizes_concat(m0.live.take(x as int), m0.live.subrange(x as int, y as int));
            lemma_sum_sizes_concat(m0.live.take(x as int), m0.live.skip(y as int));
            lemma_sum_sizes_nonneg(m0.live.take(x as int));
            lemma_sum_sizes_nonneg(m0.live.skip(y as int));
            assert(removed@ =~= m0.live.subrange(x as int, y as int));
            assert(state.live_ids@ =~= m0.live.take(x as int) + m0.live.skip(y as int));
        }
        proof {
            lemma_sum_sizes_nonneg(m0.live.subrange(x as int, y as int));
            assert(sum_sizes(removed@) <= u128::MAX as int);
        }
        let mut i: usize = 0;
        let mut sub: u128 = 0;
        let rlen = removed.len();
        while i < rlen
            invariant
                i <= rlen,
                rlen == removed@.len(),
                sub as int == sum_sizes(removed@.take(i as int)),
                sum_sizes(removed@) <= u128::MAX as int,
            decreases rlen - i,
        {
            proof {
                assert(removed@.take(i + 1) =~= removed@.take(i as int).push(removed@[i as int]));
                lemma_sum_sizes_push(removed@.take(i as int), removed@[i as int]);
                assert(removed@ =~= removed@.take(i + 1) + removed@.skip(i + 1));
                lemma_sum_sizes_concat(removed@.take(i + 1), removed@.skip(i + 1));
                lemma_sum_sizes_nonneg(removed@.skip(i + 1));
                lemma_sum_sizes_nonneg(removed@.take(i as int));
                lemma_sum_sizes_nonneg(m0.live);
            }
            sub = sub + (removed[i].1 as u128);
            i = i + 1;
        }
        proof {
            assert(removed@.take(rlen as int) =~= removed@);
            lemma_sum_sizes_nonneg(removed@);
        }
        state.current_bytes = state.current_bytes - sub;
    }
    proof {
        lemma_sum_sizes_nonneg(state.live_ids@);
        assert(state.model() =~= spec_delete_range(m0, left, right));
    }
}

/// Runs every command of a list through the per-command handlers, in
/// order; `Times` replays its embedded list the given number of times.
/// Every step of the run respects the live list — empty-list no-ops are
/// silently skipped and emitted reads and deletes reference live entries
/// — as `lemma_run_respects_live` proves of the pinned model.
pub fn commands_to_real_commands(state: &mut State, commands: Vec<Command>)
    requires
        old(state).inv(),
    ensures
        final(state).inv(),
        final(state).model() == spec_run(old(state).model(), commands.deep_view()),
{
    run_commands(state, &commands);
}

/// The recursive worker behind `commands_to_real_commands`.
fn run_commands(state: &mut State, commands: &Vec<Command>)
    requires
        old(state).inv(),
    ensures
        final(state).inv(),
        final(state).model() == spec_run(old(state).model(), commands.deep_view()),
    decreases cvs_height(commands.deep_view()),
{
    let ghost cs = commands.deep_view();
    let ghost m_in = state.model();
    proof {
        assert(cs.skip(0) =~= cs);
    }
    let n = commands.len();
    let mut i: usize = 0;
    while i < n
        invariant
            state.inv(),
            i <= n,
            n == commands@.len(),
            cs == commands.deep_view(),
            spec_run(m_in, cs) == spec_run(state.model(), cs.skip(i as int)),
        decreases n - i,
    {
        let ghost m_i = state.model();
        let ghost rest = cs.skip(i as int);
        proof {
            assert(rest[0] == cs[i as int]);
            assert(cs[i as int] == commands@[i as int].deep_view());
            assert(rest.drop_first() =~= cs.skip(i + 1));
        }
        match &commands[i] {
            Command::NewPut(b) => put(state, *b),
            Command::Overwrite(b) => overwrite(state, *b),
            Command::Embed(b) => embed(state, *b),
            Command::RandomGet => get(state, 0, 100),
            Command::Get(l, r) => get(state, *l, *r),
            Command::RandomDelete => delete(state, 0, 100),
            Command::Delete(l, r) => delete(state, *l, *r),
            Command::DeleteRange(l, r) => delete_range(state, *l, *r),
            Command::Times(count, inner) => {
                let c: usize = *count;
                let ghost inner_dv = inner.deep_view();
                proof {
                    crate::lemma_cmd_vec_view(*inner);
                    assert(cs[i as int] == CommandV::Times(c, inner_dv));
                    lemma_cvs_height_index(cs, i as int);
                    assert(cv_height(cs[i as int]) == 1 + cvs_height(inner_dv));
                }
                let mut j: usize = 0;
                while j < c
                    invariant
                        state.inv(),
                        j <= c,
                        inner_dv == inner.deep_view(),
                        cvs_height(inner_dv) < cvs_height(commands.deep_view()),
                        spec_run_times(m_i, inner_dv, c as nat) == spec_run_times(
                            state.model(),
                            inner_dv,
                            (c - j) as nat,
                        ),
                    decreases c - j,
                {
                    run_commands(state, inner);
                    j = j + 1;
                }
            },
        }
        proof {
            assert(spec_run(m_i, rest) == spec_run(state.model(), cs.skip(i + 1)));
        }
        i = i + 1;
    }
    proof {
        assert(cs.skip(n as int) =~= Seq::<CommandV>::empty());
    }
}

/// Expands one section into its flat command list; an unordered section
/// shuffles its expanded statement instances through the state's random
/// stream first.
fn section_to_commands(state: &mut State, section: &Section) -> (r: Vec<Command>)
    requires
        old(state).inv(),
    ensures
        final(state).inv(),
        r.deep_view() == spec_expand_section(old(state).model().rng, section.deep_view()).1,
        final(state).model() == (GenModel {
            rng: spec_expand_section(old(state).model().rng, section.deep_view()).0,
            ..old(state).model()
        }),
{
    let ghost m0 = state.model();
    match section {
        Section::Commands(cs) => {
            let r = crate::clone_commands(cs);
            proof {
                crate::lemma_cmd_vec_view(*cs);
                assert(state.model() =~= (GenModel { rng: m0.rng, ..m0 }));
            }
            r
        },
        Section::Ordered(iter, entries) => {
            let statements = expand_entries(*iter, entries);
            proof {
                assert(state.model() =~= (GenModel { rng: m0.rng, ..m0 }));
            }
            flatten_statements(&statements)
        },
        Section::Unordered(iter, entries) => {
            let mut statements = expand_entries(*iter, entries);
            let ghost sts = statements.deep_view();
            let ghost before = statements@;
            let ghost p = rng_perm(m0.rng.seed, m0.rng.uses, before.len());
            state.rng.shuffle_statements(&mut statements);
            proof {
                assert(statements.deep_view() =~= apply_perm(sts, p)) by {
                    assert(forall|k: int|
                        0 <= k < before.len() ==> statements@[k] == #[trigger] before[p[k]]);
                }
                assert(state.model() =~= (GenModel {
                    rng: spec_expand_section(m0.rng, section.deep_view()).0,
                    ..m0
                }));
            }
            flatten_statements(&statements)
        },
    }
}

/// Builds the expanded statement instances of a section body: each
/// `(frequency, statement)` entry contributes `iter * frequency / 100`
/// clones of its statement, in declaration order.
fn expand_entries(iter: usize, entries: &Vec<(Freq, Statement)>) -> (r: Vec<Statement>)
    ensures
        r.deep_view() == spec_expand_entries(iter, entries.deep_view()),
{
    let ghost edv = entries.deep_view();
    let mut statements: Vec<Statement> = Vec::new();
    let n = entries.len();
    let mut i: usize = 0;
    proof {
        assert(edv.skip(0) =~= edv);
        assert(statements.deep_view() =~= Seq::<Seq<CommandV>>::empty());
    }
    while i < n
        invariant
            i <= n,
            n == entries@.len(),
            edv == entries.deep_view(),
            statements.deep_view() + spec_expand_entries(iter, edv.skip(i as int))
                =~= spec_expand_entries(iter, edv),
        decreases n - i,
    {
        let ghost s0 = statements.deep_view();
        let ghost rest = edv.skip(i as int);
        let freq: Freq = entries[i].0;
        let ghost st_dv = entries@[i as int].1.deep_view();
        proof {
            lemma_perc_product_fits(iter, freq);
            assert(rest[0] == edv[i as int]);
            assert(edv[i as int] == entries@[i as int].deep_view());
            assert(rest.drop_first() =~= edv.skip(i + 1));
        }
        let y: u128 = (iter as u128) * (freq as u128) / 100;
        let mut j: u128 = 0;
        while j < y
            invariant
                j <= y,
                n == entries@.len(),
                i < n,
                st_dv == entries@[i as int].1.deep_view(),
                statements.deep_view() =~= s0 + repeat_stmt(st_dv, j as nat),
            decreases y - j,
        {
            let copy = entries[i].1.clone();
            statements.push(copy);
            proof {
                assert(statements.deep_view() =~= (s0 + repeat_stmt(st_dv, j as nat)).push(st_dv));
                assert((s0 + repeat_stmt(st_dv, j as nat)).push(st_dv) =~= s0 + repeat_stmt(
                    st_dv,
                    (j + 1) as nat,
                ));
            }
            j = j + 1;
        }
        proof {
            assert(y as int == entry_count(iter, freq));
            assert(statements.deep_view() + spec_expand_entries(iter, edv.skip(i + 1))
                =~= spec_expand_entries(iter, edv));
        }
        i = i + 1;
    }
    proof {
        assert(edv.skip(n as int) =~= Seq::<(u8, Seq<CommandV>)>::empty());
        assert(statements.deep_view() =~= spec_expand_entries(iter, edv));
    }
    statements
}

/// Concatenates the command lists of the statements, in order.
fn flatten_statements(statements: &Vec<Statement>) -> (r: Vec<Command>)
    ensures
        r.deep_view() == statements.deep_view().flatten(),
{
    let ghost sts = statements.deep_view();
    let mut commands: Vec<Command> = Vec::new();
    let n = statements.len();
    let mut i: usize = 0;
    proof {
        assert(commands.deep_view() =~= Seq::<CommandV>::empty());
        assert(sts.take(0) =~= Seq::<Seq<CommandV>>::empty());
    }
    while i < n
        invariant
            i <= n,
            n == statements@.len(),
            sts == statements.deep_view(),
            commands.deep_view() =~= sts.take(i as int).flatten(),
        decreases n - i,
    {
        let ghost before = commands.deep_view();
        let mut part = crate::clone_commands(&statements[i].0);
        commands.append(&mut part);
        proof {
            broadcast use Seq::lemma_flatten_push;

            crate::lemma_cmd_vec_view(statements@[i as int].0);
            assert(sts[i as int] == statements@[i as int].deep_view());
            assert(commands.deep_view() =~= before + sts[i as int]);
            assert(sts.take(i + 1) =~= sts.take(i as int).push(sts[i as int]));
        }
        i = i + 1;
    }
    proof {
        assert(sts.take(n as int) =~= sts);
    }
    commands
}

/// Expands every section of a workload into one flat command list,
/// section after section; unordered sections consume shuffle draws from
/// the state's random stream.
pub fn deal_workload(state: &mut State, workload: &Workload) -> (r: Vec<Command>)
    requires
        old(state).inv(),
    ensures
        final(state).inv(),
        r.deep_view() == spec_expand_workload(
            old(state).model().rng,
            workload.deep_view().sections,
        ).1,
        final(state).model() == (GenModel {
            rng: spec_expand_workload(old(state).model().rng, workload.deep_view().sections).0,
            ..old(state).model()
        }),
{
    let ghost m0 = state.model();
    let ghost sdv = workload.deep_view().sections;
    let ghost full = spec_expand_workload(m0.rng, sdv);
    let mut commands: Vec<Command> = Vec::new();
    let n = workload.sections.len();
    let mut i: usize = 0;
    proof {
        assert(sdv.skip(0) =~= sdv);
        assert(commands.deep_view() =~= Seq::<CommandV>::empty());
    }
    while i < n
        invariant
            state.inv(),
            i <= n,
            n == workload.sections@.len(),
            sdv == workload.deep_view().sections,
            full == spec_expand_workload(m0.rng, sdv),
            spec_expand_workload(state.model().rng, sdv.skip(i as int)).0 == full.0,
            commands.deep_view() + spec_expand_workload(state.model().rng, sdv.skip(i as int)).1
                =~= full.1,
            state.model() == (GenModel { rng: state.model().rng, ..m0 }),
        decreases n - i,
    {
        let ghost rest = sdv.skip(i as int);
        let ghost m_i = state.model();
        proof {
            assert(rest[0] == sdv[i as int]);
            assert(sdv[i as int] == workload.sections@[i as int].deep_view());
            assert(rest.drop_first() =~= sdv.skip(i + 1));
        }
        let mut part = section_to_commands(state, &workload.sections[i]);
        commands.append(&mut part);
        proof {
            assert(state.model() =~= (GenModel { rng: state.model().rng, ..m0 }));
        }
        i = i + 1;
    }
    proof {
        assert(sdv.skip(n as int) =~= Seq::<SectionV>::empty());
        assert(commands.deep_view() =~= full.1);
    }
    commands
}

/// Compiles a workload: expands every section, then runs the flat
/// command sequence through the per-command handlers.  The result — the
/// concrete command sequence and the peak simulated byte total — is a
/// function of the workload alone, so compilation is deterministic.
pub fn workload_to_real_commands(workload: &Workload) -> (r: (Vec<RealCommand>, u128))
    ensures
        r.0@ == spec_compile(workload.deep_view()).cmds,
        r.1 as int == spec_compile(workload.deep_view()).peak,
        model_wf(spec_compile(workload.deep_view())),
{
    let mut state = State::new(workload.seed);
    proof {
        assert(state.model() =~= (GenModel {
            rng: init_model(workload.deep_view().seed).rng,
            ..init_model(workload.deep_view().seed)
        }));
    }
    let commands = deal_workload(&mut state, workload);
    commands_to_real_commands(&mut state, commands);
    proof {
        assert(state.model() =~= spec_compile(workload.deep_view()));
    }
    (state.commands, state.peek_bytes)
}

/// Determinism: the compiled command sequence and the peak byte total
/// are a function of the workload alone, so any two results of compiling
/// one workload — as `workload_to_real_commands` returns them — are
/// identical.
pub proof fn lemma_compile_deterministic(
    w: WorkloadV,
    r1: (Seq<RealCommand>, int),
    r2: (Seq<RealCommand>, int),
)
    requires
        r1 == (spec_compile(w).cmds, spec_compile(w).peak),
        r2 == (spec_compile(w).cmds, spec_compile(w).peak),
    ensures
        r1 == r2,
{
}

/// Every element of `s` is exactly its position plus one.
pub open spec fn strictly_increasing(s: Seq<int>) -> bool {
    forall|i: int, j: int| 0 <= i < j < s.len() ==> s[i] < s[j]
}

proof fn lemma_step_preserves_wf(m: GenModel, c: CommandV)
    requires
        model_wf(m),
        !(c is Times),
    ensures
        model_wf(spec_step(m, c)),
        m.allocs.is_prefix_of(spec_step(m, c).allocs),
{
    lemma_sum_sizes_nonneg(m.live);
    match c {
        CommandV::NewPut(b) => lemma_put_preserves_wf(m, b, false),
        CommandV::Embed(b) => lemma_put_preserves_wf(m, b, true),
        CommandV::Overwrite(b) => {
            if m.live.len() > 0 {
                let n = m.live.len();
                let draw = rng_range(m.rng.seed, m.rng.uses, 0, n as usize) as int;
                let z = if 0 <= draw < n {
                    draw
                } else {
                    0
                };
                lemma_sum_sizes_update(m.live, z, (m.live[z].0, b));
                assert(spec_step(m, c).allocs =~= m.allocs);
            }
        },
        CommandV::RandomGet => {
            assert(spec_step(m, c).allocs =~= m.allocs);
        },
        CommandV::Get(_l, _r) => {
            assert(spec_step(m, c).allocs =~= m.allocs);
        },
        CommandV::RandomDelete => lemma_delete_preserves_wf(m, 0, 100),
        CommandV::Delete(l, r) => lemma_delete_preserves_wf(m, l, r),
        CommandV::DeleteRange(l, r) => {
            if m.live.len() > 0 {
                let n = m.live.len() as int;
                let x = cap_at(n * l / 100, n);
                let y = cap_at(n * r / 100, n);
                if x <= y {
                    assert(m.live =~= m.live.take(x) + m.live.subrange(x, y) + m.live.skip(y));
                    lemma_sum_sizes_concat(
                        m.live.take(x) + m.live.subrange(x, y),
                        m.live.skip(y),
                    );
                    lemma_sum_sizes_concat(m.live.take(x), m.live.subrange(x, y));
                    lemma_sum_sizes_concat(m.live.take(x), m.live.skip(y));
                    lemma_sum_sizes_nonneg(m.live.subrange(x, y));
                }
            }
        },
        CommandV::Times(_n, _cs) => {},
    }
}

proof fn lemma_put_preserves_wf(m: GenModel, b: usize, embed: bool)
    requires
        model_wf(m),
    ensures
        model_wf(spec_put(m, b, embed)),
        m.allocs.is_prefix_of(spec_put(m, b, embed).allocs),
{
    lemma_sum_sizes_nonneg(m.live);
    lemma_sum_sizes_push(m.live, (m.next as u128, b));
}

proof fn lemma_delete_preserves_wf(m: GenModel, l: u8, r: u8)
    requires
        model_wf(m),
    ensures
        model_wf(spec_delete(m, l, r)),
        spec_delete(m, l, r).allocs == m.allocs,
    decreases 0int,
{
    if m.live.len() > 0 {
        lemma_calc_index_in_range(m.rng, m.live.len(), l, r);
        let i = spec_calc_index(m.rng, m.live.len(), l, r).0;
        lemma_sum_sizes_remove(m.live, i);
        lemma_sum_sizes_nonneg(m.live);
    }
}

/// Running any command sequence preserves well-formedness and only ever
/// appends to the allocation record.
pub proof fn lemma_run_preserves_wf(m: GenModel, cs: Seq<CommandV>)
    requires
        model_wf(m),
    ensures
        model_wf(spec_run(m, cs)),
        m.allocs.is_prefix_of(spec_run(m, cs).allocs),
    decreases cvs_height(cs), 0nat, cs.len(),
{
    if cs.len() > 0 {
        lemma_cvs_height_index(cs, 0);
        lemma_cvs_height_skip(cs, 1);
        assert(cs.drop_first() =~= cs.skip(1));
        let m1 = match cs[0] {
            CommandV::Times(n, inner) => spec_run_times(m, inner, n as nat),
            _ => spec_step(m, cs[0]),
        };
        match cs[0] {
            CommandV::Times(n, inner) => {
                assert(cv_height(cs[0]) == 1 + cvs_height(inner));
                lemma_run_times_preserves_wf(m, inner, n as nat);
            },
            _ => {
                lemma_step_preserves_wf(m, cs[0]);
            },
        }
        lemma_run_preserves_wf(m1, cs.drop_first());
        assert(m.allocs.is_prefix_of(spec_run(m, cs).allocs));
    }
}

proof fn lemma_run_times_preserves_wf(m: GenModel, cs: Seq<CommandV>, k: nat)
    requires
        model_wf(m),
    ensures
        model_wf(spec_run_times(m, cs, k)),
        m.allocs.is_prefix_of(spec_run_times(m, cs, k).allocs),
    decreases cvs_height(cs), k, 0nat,
{
    if k > 0 {
        lemma_run_preserves_wf(m, cs);
        lemma_run_times_preserves_wf(spec_run(m, cs), cs, (k - 1) as nat);
    }
}

/// Key monotonicity: over a whole compilation the keys handed out by
/// `NewPut` and `Embed` — the allocation record of the final state — are
/// exactly 1, 2, 3, ... in emission order: strictly increasing, and no
/// key is ever reused.
pub proof fn lemma_key_monotonicity(w: WorkloadV)
    ensures
        model_wf(spec_compile(w)),
        strictly_increasing(spec_compile(w).allocs),
        forall|i: int|
            0 <= i < spec_compile(w).allocs.len() ==> #[trigger] spec_compile(w).allocs[i] == i
                + 1,
{
    let m0 = init_model(w.seed);
    let (rng1, flat) = spec_expand_workload(m0.rng, w.sections);
    lemma_run_preserves_wf(GenModel { rng: rng1, ..m0 }, flat);
}

/// The commands whose handlers read the live list.
pub open spec fn targets_live(c: CommandV) -> bool {
    ||| c is RandomGet
    ||| c is Get
    ||| c is RandomDelete
    ||| c is Delete
    ||| c is Overwrite
}

/// Live-set invariant, per step: a `Get`, `Delete` or `Overwrite` on an
/// empty live list is silently skipped and emits nothing; on a non-empty
/// list it emits exactly one command, whose key — and, for `Get` and
/// `Delete`, whose size — is an entry of the live list at that moment.
pub proof fn lemma_step_targets_live(m: GenModel, c: CommandV)
    requires
        targets_live(c),
    ensures
        m.live.len() == 0 ==> spec_step(m, c).cmds == m.cmds,
        m.live.len() > 0 ==> {
            let out = spec_step(m, c).cmds;
            &&& out.len() == m.cmds.len() + 1
            &&& out.take(m.cmds.len() as int) == m.cmds
            &&& match out.last() {
                RealCommand::Get(k, s) => exists|i: int|
                    0 <= i < m.live.len() && m.live[i] == (k, s),
                RealCommand::Delete(k, s) => exists|i: int|
                    0 <= i < m.live.len() && m.live[i] == (k, s),
                RealCommand::Put(k, _b) => exists|i: int| 0 <= i < m.live.len() && m.live[i].0 == k,
                _ => false,
            }
        },
{
    if m.live.len() > 0 {
        match c {
            CommandV::RandomGet => lemma_selected_index(m, 0, 100),
            CommandV::Get(l, r) => lemma_selected_index(m, l, r),
            CommandV::RandomDelete => lemma_selected_index(m, 0, 100),
            CommandV::Delete(l, r) => lemma_selected_index(m, l, r),
            _ => {},
        }
        let out = spec_step(m, c).cmds;
        assert(out.take(m.cmds.len() as int) =~= m.cmds);
    }
}

proof fn lemma_selected_index(m: GenModel, l: u8, r: u8)
    requires
        m.live.len() > 0,
    ensures
        0 <= spec_calc_index(m.rng, m.live.len(), l, r).0 < m.live.len(),
{
    lemma_calc_index_in_range(m.rng, m.live.len(), l, r);
}

/// Frequency-expansion exactness: an ordered section with a single
/// `(freq, statement)` entry expands to exactly `⌊iter·freq/100⌋` copies
/// of the statement, so its flat command count is exactly that times the
/// statement's length, and no random value is drawn.
pub proof fn lemma_ordered_expansion_count(
    rng: RngModel,
    iter: usize,
    freq: u8,
    st: Seq<CommandV>,
)
    ensures
        spec_expand_section(rng, SectionV::Ordered(iter, seq![(freq, st)])).0 == rng,
        spec_expand_section(rng, SectionV::Ordered(iter, seq![(freq, st)])).1.len() == entry_count(
            iter,
            freq,
        ) * st.len(),
{
    let entries = seq![(freq, st)];
    assert(entries.drop_first() =~= Seq::<(u8, Seq<CommandV>)>::empty());
    let reps = repeat_stmt(st, entry_count(iter, freq) as nat);
    assert(entries[0] == (freq, st));
    assert(spec_expand_entries(iter, entries.drop_first()) == Seq::<Seq<CommandV>>::empty());
    assert(spec_expand_entries(iter, entries) == reps + Seq::<Seq<CommandV>>::empty());
    assert(reps + Seq::<Seq<CommandV>>::empty() =~= reps);
    lemma_flatten_repeat_len(st, entry_count(iter, freq) as nat);
}

/// An empty deletion band: when the two window bounds land on the same
/// position — as `DeleteRange(50, 50)` does on a ten-key population —
/// the half-open band `[x, y)` is empty, so the step appends exactly one
/// range-delete command, between the key at the shared position and
/// itself, and changes nothing else: no live key is removed and the byte
/// counters stand.
pub proof fn lemma_delete_range_empty_band(m: GenModel, left: u8, right: u8)
    requires
        m.live.len() > 0,
        cap_at(m.live.len() * left / 100, m.live.len() as int) == cap_at(
            m.live.len() * right / 100,
            m.live.len() as int,
        ),
    ensures
        ({
            let n = m.live.len() as int;
            let x = cap_at(n * left / 100, n);
            let key = m.live[cap_at(x, n - 1)].0;
            spec_delete_range(m, left, right) == (GenModel {
                cmds: m.cmds.push(RealCommand::DeleteRange(key, key)),
                ..m
            })
        }),
{
    let n = m.live.len() as int;
    let x = cap_at(n * left / 100, n);
    let key = m.live[cap_at(x, n - 1)].0;
    assert(m.live.take(x) + m.live.skip(x) =~= m.live);
    assert(spec_delete_range(m, left, right) =~= (GenModel {
        cmds: m.cmds.push(RealCommand::DeleteRange(key, key)),
        ..m
    }));
}

/// What a command that consults the live list may do in one step: on an
/// empty list it is silently skipped — no command is emitted and the
/// state is left unchanged — and on a non-empty list a `Get`, `Delete`
/// or `Overwrite` emits exactly one command whose key (and, for `Get`
/// and `Delete`, whose size) is an entry of the live list at that
/// moment.
pub open spec fn step_respects_live(m: GenModel, c: CommandV) -> bool {
    &&& ((targets_live(c) || c is DeleteRange) && m.live.len() == 0 ==> spec_step(m, c) == m)
    &&& (targets_live(c) && m.live.len() > 0 ==> {
        let out = spec_step(m, c).cmds;
        &&& out.len() == m.cmds.len() + 1
        &&& out.take(m.cmds.len() as int) == m.cmds
        &&& match out.last() {
            RealCommand::Get(k, s) => exists|i: int| 0 <= i < m.live.len() && m.live[i] == (k, s),
            RealCommand::Delete(k, s) => exists|i: int|
                0 <= i < m.live.len() && m.live[i] == (k, s),
            RealCommand::Put(k, _b) => exists|i: int| 0 <= i < m.live.len() && m.live[i].0 == k,
            _ => false,
        }
    })
}

/// Every step of a run — `Times` repetitions included — satisfies
/// `step_respects_live` at the state current when that step runs.
pub open spec fn run_respects_live(m: GenModel, cs: Seq<CommandV>) -> bool
    decreases cvs_height(cs), 0nat, cs.len(),
    when cs.len() >= 0
    via run_respects_live_decreases
{
    if cs.len() == 0 {
        true
    } else {
        let ok0 = match cs[0] {
            CommandV::Times(n, inner) => times_respect_live(m, inner, n as nat),
            _ => step_respects_live(m, cs[0]),
        };
        let m1 = match cs[0] {
            CommandV::Times(n, inner) => spec_run_times(m, inner, n as nat),
            _ => spec_step(m, cs[0]),
        };
        ok0 && run_respects_live(m1, cs.drop_first())
    }
}

/// Every step of a repeated run satisfies `step_respects_live`.
pub open spec fn times_respect_live(m: GenModel, cs: Seq<CommandV>, k: nat) -> bool
    decreases cvs_height(cs), k, 0nat,
    when k >= 0
    via times_respect_live_decreases
{
    if k == 0 {
        true
    } else {
        run_respects_live(m, cs) && times_respect_live(spec_run(m, cs), cs, (k - 1) as nat)
    }
}

#[via_fn]
proof fn run_respects_live_decreases(m: GenModel, cs: Seq<CommandV>) {
    if cs.len() > 0 {
        lemma_cvs_height_index(cs, 0);
        lemma_cvs_height_skip(cs, 1);
        assert(cs.drop_first() =~= cs.skip(1));
        match cs[0] {
            CommandV::Times(_n, inner) => {
                assert(cv_height(cs[0]) == 1 + cvs_height(inner));
            },
            _ => {},
        }
    }
}

#[via_fn]
proof fn times_respect_live_decreases(m: GenModel, cs: Seq<CommandV>, k: nat) {
}

proof fn lemma_step_respects_live(m: GenModel, c: CommandV)
    requires
        !(c is Times),
    ensures
        step_respects_live(m, c),
{
    if targets_live(c) {
        lemma_step_targets_live(m, c);
    }
}

/// Live-set invariant over any run of any command list: a `Get`,
/// `Delete`, `Overwrite` or `DeleteRange` that arrives at an empty live
/// list is silently skipped — the state, commands included, is left
/// unchanged, so the skipped no-ops are exactly the commands that found
/// the list empty — and every emitted `Get`, `Delete` and overwrite
/// `Put` references an entry of the live list at the moment of its
/// emission.
pub proof fn lemma_run_respects_live(m: GenModel, cs: Seq<CommandV>)
    ensures
        run_respects_live(m, cs),
    decreases cvs_height(cs), 0nat, cs.len(),
{
    if cs.len() > 0 {
        lemma_cvs_height_index(cs, 0);
        lemma_cvs_height_skip(cs, 1);
        assert(cs.drop_first() =~= cs.skip(1));
        let m1 = match cs[0] {
            CommandV::Times(n, inner) => spec_run_times(m, inner, n as nat),
            _ => spec_step(m, cs[0]),
        };
        match cs[0] {
            CommandV::Times(n, inner) => {
                assert(cv_height(cs[0]) == 1 + cvs_height(inner));
                lemma_times_respect_live(m, inner, n as nat);
            },
            _ => {
                lemma_step_respects_live(m, cs[0]);
            },
        }
        lemma_run_respects_live(m1, cs.drop_first());
    }
}

proof fn lemma_times_respect_live(m: GenModel, cs: Seq<CommandV>, k: nat)
    ensures
        times_respect_live(m, cs, k),
    decreases cvs_height(cs), k, 0nat,
{
    if k > 0 {
        lemma_run_respects_live(m, cs);
        lemma_times_respect_live(spec_run(m, cs), cs, (k - 1) as nat);
    }
}

/// Flattening `k` copies of one statement yields `k` times its length.
pub proof fn lemma_flatten_repeat_len(st: Seq<CommandV>, k: nat)
    ensures
        repeat_stmt(st, k).flatten().len() == k * st.len(),
    decreases k,
{
    broadcast use Seq::lemma_flatten_push;

    if k == 0 {
    } else {
        lemma_flatten_repeat_len(st, (k - 1) as nat);
        assert((k - 1) * st.len() + st.len() == k * st.len()) by (nonlinear_arith);
    }
}

} // verus!

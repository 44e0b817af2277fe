use std::sync::Arc;
use vstd::prelude::*;
use vstd::rwlock::{RwLock, RwLockPredicate};

use crate::text::{decimal, push_decimal};

verus! {

/// How a finished download ended.
#[derive(Clone, Copy, Debug, PartialEq, Eq, Structural)]
pub enum Outcome {
    Downloaded,
    Failed,
}

/// The state of a batch of downloads: how many there are, how many have
/// ended, how many bytes came in, the names of those under way, and how many
/// of those the last display showed.
pub struct ProgressState {
    total: usize,
    done: usize,
    total_bytes: usize,
    bar_width: usize,
    active_names: Vec<String>,
    drawn_active: usize,
}

/// Mathematical model of a [`ProgressState`].
pub struct ProgressModel {
    pub total: nat,
    pub done: nat,
    pub total_bytes: nat,
    pub bar_width: nat,
    pub active: Seq<Seq<char>>,
    pub drawn_active: nat,
}

pub open spec fn name_models(s: Seq<String>) -> Seq<Seq<char>> {
    s.map_values(|n: String| n@)
}

impl View for ProgressState {
    type V = ProgressModel;

    closed spec fn view(&self) -> ProgressModel {
        ProgressModel {
            total: self.total as nat,
            done: self.done as nat,
            total_bytes: self.total_bytes as nat,
            bar_width: self.bar_width as nat,
            active: name_models(self.active_names@),
            drawn_active: self.drawn_active as nat,
        }
    }
}

/// What one update of the progress display shows: the number of lines of
/// the previous display to move back up over, an optional message line, the
/// downloads under way, and the counts for the bar.
pub struct ProgressFrame {
    pub up: usize,
    pub message: Option<(Outcome, String)>,
    pub active: Vec<String>,
    pub done: usize,
    pub total: usize,
}

/// Mathematical model of a [`ProgressFrame`].
pub struct ProgressFrameModel {
    pub up: nat,
    pub message: Option<(Outcome, Seq<char>)>,
    pub active: Seq<Seq<char>>,
    pub done: nat,
    pub total: nat,
}

impl View for ProgressFrame {
    type V = ProgressFrameModel;

    open spec fn view(&self) -> ProgressFrameModel {
        ProgressFrameModel {
            up: self.up as nat,
            message: match self.message {
                Some((o, n)) => Some((o, n@)),
                None => None,
            },
            active: name_models(self.active@),
            done: self.done as nat,
            total: self.total as nat,
        }
    }
}

/// How a piece of the progress display is coloured.
#[derive(Clone, Copy, Debug, PartialEq, Eq, Structural)]
pub enum Tone {
    Plain,
    Green,
    Red,
    White,
    Grey,
}

/// Mathematical model of a piece of the display.
pub open spec fn piece_models(ps: Seq<(Tone, String)>) -> Seq<(Tone, Seq<char>)> {
    ps.map_values(|p: (Tone, String)| (p.0, p.1@))
}

/// The start of a redraw: back to the first column, up over the `up` lines
/// the last display left, and clear from there down.
pub open spec fn redraw_start(up: nat) -> Seq<char> {
    "\r"@ + (if up > 0 {
        "\x1B["@ + decimal(up) + "A"@
    } else {
        Seq::empty()
    }) + "\x1B[J"@
}

/// The line that reports how the download `name` ended.
pub open spec fn message_pieces(o: Outcome, name: Seq<char>) -> Seq<(Tone, Seq<char>)> {
    seq![
        (Tone::Plain, "  "@),
        match o {
            Outcome::Downloaded => (Tone::Green, "downloaded "@),
            Outcome::Failed => (Tone::Red, "error      "@),
        },
        (Tone::Plain, " "@),
        (Tone::White, name),
        (Tone::Plain, "\n"@),
    ]
}

/// The line for a download under way.
pub open spec fn active_pieces(name: Seq<char>) -> Seq<(Tone, Seq<char>)> {
    seq![(Tone::Plain, "  "@), (Tone::Grey, "downloading"@), (Tone::Plain, " "@), (Tone::White, name), (Tone::Plain, "\n"@)]
}

/// The lines for the first `k` downloads under way.
pub open spec fn active_lines(names: Seq<Seq<char>>, k: int) -> Seq<(Tone, Seq<char>)>
    decreases k,
{
    if k <= 0 || k > names.len() {
        Seq::empty()
    } else {
        active_lines(names, k - 1) + active_pieces(names[k - 1])
    }
}

/// What a redraw writes before the bar: its start, the message line if any,
/// then a line per download under way.
pub open spec fn redraw_spec(f: ProgressFrameModel) -> Seq<(Tone, Seq<char>)> {
    seq![(Tone::Plain, redraw_start(f.up))] + match f.message {
        Some((o, n)) => message_pieces(o, n),
        None => Seq::empty(),
    } + active_lines(f.active, f.active.len() as int)
}

fn push_piece(out: &mut Vec<(Tone, String)>, tone: Tone, text: &str)
    ensures
        piece_models(final(out)@) == piece_models(old(out)@).push((tone, text@)),
{
    let ghost before = out@;
    out.push((tone, text.to_string()));
    assert(piece_models(out@) =~= piece_models(before).push((tone, text@)));
}

/// The start of a redraw over a display that left `up` lines.
pub fn redraw_start_text(up: usize) -> (res: String)
    ensures
        res@ == redraw_start(up as nat),
{
    let mut start = "\r".to_string();
    if up > 0 {
        start.append("\x1B[");
        push_decimal(&mut start, up as u64);
        start.append("A");
    }
    start.append("\x1B[J");
    assert(start@ =~= redraw_start(up as nat));
    start
}

impl ProgressFrame {
    /// The coloured pieces that a redraw writes before the bar.
    pub fn redraw(&self) -> (res: Vec<(Tone, String)>)
        ensures
            piece_models(res@) == redraw_spec(self@),
    {
        let start = redraw_start_text(self.up);
        let mut out: Vec<(Tone, String)> = Vec::new();
        push_piece(&mut out, Tone::Plain, start.as_str());
        assert(piece_models(out@) =~= seq![(Tone::Plain, redraw_start(self@.up))]);
        let ghost head = piece_models(out@);
        match &self.message {
            Some((o, n)) => {
                push_piece(&mut out, Tone::Plain, "  ");
                match o {
                    Outcome::Downloaded => push_piece(&mut out, Tone::Green, "downloaded "),
                    Outcome::Failed => push_piece(&mut out, Tone::Red, "error      "),
                }
                push_piece(&mut out, Tone::Plain, " ");
                push_piece(&mut out, Tone::White, n.as_str());
                push_piece(&mut out, Tone::Plain, "\n");
                assert(piece_models(out@) =~= head + message_pieces(*o, n@));
            },
            None => {
                assert(piece_models(out@) =~= head + Seq::<(Tone, Seq<char>)>::empty());
            },
        }
        let ghost mid = piece_models(out@);
        let ghost names = self@.active;
        let mut i: usize = 0;
        while i < self.active.len()
            invariant
                i <= self.active@.len(),
                names == self@.active,
                names.len() == self.active@.len(),
                piece_models(out@) == mid + active_lines(names, i as int),
            decreases self.active@.len() - i,
        {
            let name = self.active[i].as_str();
            assert(name@ == names[i as int]);
            let ghost b = piece_models(out@);
            push_piece(&mut out, Tone::Plain, "  ");
            push_piece(&mut out, Tone::Grey, "downloading");
            push_piece(&mut out, Tone::Plain, " ");
            push_piece(&mut out, Tone::White, name);
            push_piece(&mut out, Tone::Plain, "\n");
            assert(piece_models(out@) =~= b + active_pieces(names[i as int]));
            assert(mid + active_lines(names, i + 1) =~= mid + active_lines(names, i as int) + active_pieces(
                names[i as int],
            ));
            i = i + 1;
        }
        out
    }
}

/// The names under way, without those equal to `name`.
pub open spec fn without_name(active: Seq<Seq<char>>, name: Seq<char>) -> Seq<Seq<char>> {
    active.filter(|n: Seq<char>| n != name)
}

/// The progress after the download `name` starts.
pub open spec fn started(p: ProgressModel, name: Seq<char>) -> ProgressModel {
    ProgressModel { active: p.active.push(name), drawn_active: p.active.len() + 1, ..p }
}

/// The progress after the download `name` ends, having brought `bytes`
/// more bytes (counters wrap around as atomic counters do).
pub open spec fn ended(p: ProgressModel, name: Seq<char>, bytes: nat) -> ProgressModel {
    let active = without_name(p.active, name);
    ProgressModel {
        done: (p.done as usize).wrapping_add(1) as nat,
        total_bytes: (p.total_bytes as usize).wrapping_add(bytes as usize) as nat,
        active,
        drawn_active: active.len(),
        ..p
    }
}

/// The display after an update from `before` to `after`.
pub open spec fn frame_of(
    before: ProgressModel,
    after: ProgressModel,
    message: Option<(Outcome, Seq<char>)>,
) -> ProgressFrameModel {
    ProgressFrameModel {
        up: before.drawn_active,
        message,
        active: after.active,
        done: after.done,
        total: after.total,
    }
}

fn copy_names(v: &Vec<String>) -> (res: Vec<String>)
    ensures
        name_models(res@) == name_models(v@),
{
    let mut res: Vec<String> = Vec::new();
    let mut i: usize = 0;
    while i < v.len()
        invariant
            i <= v@.len(),
            name_models(res@) == name_models(v@).take(i as int),
        decreases v@.len() - i,
    {
        let s = v[i].clone();
        let ghost before = res@;
        res.push(s);
        assert(name_models(res@) =~= name_models(before).push(v@[i as int]@));
        assert(name_models(res@) =~= name_models(v@).take(i + 1));
        i = i + 1;
    }
    assert(name_models(v@).take(i as int) =~= name_models(v@));
    res
}

impl ProgressState {
    /// The state of `total` downloads, none started.
    pub fn new(total: usize) -> (res: Self)
        ensures
            res@ == (ProgressModel {
                total: total as nat,
                done: 0,
                total_bytes: 0,
                bar_width: 28,
                active: Seq::empty(),
                drawn_active: 0,
            }),
    {
        let res = ProgressState {
            total,
            done: 0,
            total_bytes: 0,
            bar_width: 28,
            active_names: Vec::new(),
            drawn_active: 0,
        };
        assert(res@.active =~= Seq::<Seq<char>>::empty());
        res
    }

    /// The number of bytes that came in.
    pub fn total_bytes(&self) -> (res: usize)
        ensures
            res == self@.total_bytes,
    {
        self.total_bytes
    }

    /// The number of lines the last display showed for downloads under way.
    pub fn drawn_active(&self) -> (res: usize)
        ensures
            res == self@.drawn_active,
    {
        self.drawn_active
    }

    /// The width of the bar, in characters.
    pub fn bar_width(&self) -> (res: usize)
        ensures
            res == self@.bar_width,
    {
        self.bar_width
    }

    fn frame(&self, up: usize, message: Option<(Outcome, String)>) -> (res: ProgressFrame)
        ensures
            res@.up == up,
            res@.message == match message {
                Some((o, n)) => Some((o, n@)),
                None => None,
            },
            res@.active == self@.active,
            res@.done == self@.done,
            res@.total == self@.total,
    {
        ProgressFrame {
            up,
            message,
            active: copy_names(&self.active_names),
            done: self.done,
            total: self.total,
        }
    }

    /// Records that the download `name` starts.
    pub fn start(&mut self, name: &str) -> (res: ProgressFrame)
        ensures
            final(self)@ == started(old(self)@, name@),
            res@ == frame_of(old(self)@, final(self)@, None),
    {
        let up = self.drawn_active;
        let ghost before = self.active_names@;
        self.active_names.push(name.to_string());
        assert(name_models(self.active_names@) =~= name_models(before).push(name@));
        self.drawn_active = self.active_names.len();
        self.frame(up, None)
    }

    fn remove_name(&mut self, name: &str)
        ensures
            final(self)@ == (ProgressModel {
                active: without_name(old(self)@.active, name@),
                ..old(self)@
            }),
    {
        let target = name.to_string();
        let mut kept: Vec<String> = Vec::new();
        let mut i: usize = 0;
        let ghost all = name_models(self.active_names@);
        while i < self.active_names.len()
            invariant
                all == name_models(self.active_names@),
                target@ == name@,
                i <= self.active_names@.len(),
                name_models(kept@) == without_name(all.take(i as int), name@),
            decreases self.active_names@.len() - i,
        {
            let ghost before = kept@;
            assert(all.take(i + 1).drop_last() =~= all.take(i as int));
            proof {
                reveal(Seq::filter);
            }
            if self.active_names[i] != target {
                let s = self.active_names[i].clone();
                kept.push(s);
                assert(name_models(kept@) =~= name_models(before).push(all[i as int]));
            }
            i = i + 1;
        }
        assert(all.take(i as int) =~= all);
        self.active_names = kept;
    }

    /// Records that the download `name` ended with `size` bytes.
    pub fn complete(&mut self, name: &str, size: u64) -> (res: ProgressFrame)
        ensures
            final(self)@ == ended(old(self)@, name@, size as usize as nat),
            res@ == frame_of(old(self)@, final(self)@, Some((Outcome::Downloaded, name@))),
    {
        let up = self.drawn_active;
        self.done = self.done.wrapping_add(1);
        self.total_bytes = self.total_bytes.wrapping_add(size as usize);
        self.remove_name(name);
        self.drawn_active = self.active_names.len();
        self.frame(up, Some((Outcome::Downloaded, name.to_string())))
    }

    /// Records that the download `name` failed.
    pub fn complete_err(&mut self, name: &str) -> (res: ProgressFrame)
        ensures
            final(self)@ == ended(old(self)@, name@, 0),
            final(self)@.total_bytes == old(self)@.total_bytes,
            res@ == frame_of(old(self)@, final(self)@, Some((Outcome::Failed, name@))),
    {
        let up = self.drawn_active;
        self.done = self.done.wrapping_add(1);
        assert(self.total_bytes == self.total_bytes.wrapping_add(0));
        self.remove_name(name);
        self.drawn_active = self.active_names.len();
        self.frame(up, Some((Outcome::Failed, name.to_string())))
    }
}

/// What the lock around a [`ProgressState`] keeps: the number of downloads,
/// the width of the bar, and a display that shows every download under way.
pub struct ProgressPred {
    pub total: usize,
}

pub open spec fn progress_inv(p: ProgressModel, total: nat) -> bool {
    &&& p.total == total
    &&& p.bar_width == 28
    &&& p.drawn_active == p.active.len()
}

impl RwLockPredicate<ProgressState> for ProgressPred {
    open spec fn inv(self, v: ProgressState) -> bool {
        progress_inv(v@, self.total as nat)
    }
}

/// Calls `Arc::clone`; the contract claims that the new `Arc` points to the
/// same value as `a`.
#[verifier::external_body]
fn share<T>(a: &Arc<T>) -> (res: Arc<T>)
    ensures
        res == *a,
{
    Arc::clone(a)
}

/// The progress of a batch of downloads, shared by the workers that run them.
pub struct Progress {
    inner: Arc<RwLock<ProgressState, ProgressPred>>,
}

/// A worker's access to the shared progress.
pub struct ProgressHandle {
    inner: Arc<RwLock<ProgressState, ProgressPred>>,
}

impl Progress {
    /// The number of downloads.
    pub closed spec fn total(&self) -> nat {
        self.inner.pred().total as nat
    }

    /// The progress of `total` downloads, none started.
    pub fn new(total: usize) -> (res: Self)
        ensures
            res.total() == total,
    {
        let state = ProgressState::new(total);
        Progress { inner: Arc::new(RwLock::new(state, Ghost(ProgressPred { total }))) }
    }

    /// Whether `h` gives access to this very progress, so that what a worker
    /// records through `h` is what this progress shows.
    pub closed spec fn shares(&self, h: &ProgressHandle) -> bool {
        self.inner == h.inner
    }

    /// A worker's access to this progress.
    pub fn handle(&self) -> (res: ProgressHandle)
        ensures
            self.shares(&res),
            res.total() == self.total(),
    {
        ProgressHandle { inner: share(&self.inner) }
    }

    /// The lines the display shows for downloads under way, and the bytes
    /// that came in, at some moment of the batch.
    pub fn counts(&self) -> (res: (usize, usize))
        ensures
            exists|b: ProgressModel|
                progress_inv(b, self.total()) && res == (b.drawn_active as usize, b.total_bytes as usize),
    {
        let read = self.inner.acquire_read();
        let state = read.borrow();
        let res = (state.drawn_active(), state.total_bytes());
        assert(progress_inv(state@, self.total()) && res == (state@.drawn_active as usize, state@.total_bytes as usize));
        read.release_read();
        res
    }
}

impl ProgressHandle {
    /// The number of downloads.
    pub closed spec fn total(&self) -> nat {
        self.inner.pred().total as nat
    }

    /// Whether this handle and `other` give access to one and the same
    /// progress.
    pub closed spec fn shares_with(&self, other: &ProgressHandle) -> bool {
        self.inner == other.inner
    }

    /// Records that the download `name` starts, hands the display for the
    /// shared state it leaves (whatever the other workers did before) to
    /// `draw` while the state is still held, so that no other update comes
    /// between, and gives that display back.
    pub fn start<F: Fn(&ProgressFrame)>(&self, name: &str, draw: F) -> (res: ProgressFrame)
        requires
            forall|fr: &ProgressFrame| draw.requires((fr,)),
        ensures
            call_ensures(draw, (&res,), ()),
            exists|b: ProgressModel|
                progress_inv(b, self.total()) && res@ == frame_of(b, started(b, name@), None),
    {
        let (mut state, write) = self.inner.acquire_write();
        let ghost before = state@;
        let frame = state.start(name);
        assert(progress_inv(before, self.total()) && frame@ == frame_of(before, started(before, name@), None));
        draw(&frame);
        write.release_write(state);
        frame
    }

    /// Records that the download `name` ended with `size` bytes, and hands
    /// the display to `draw` while the state is still held.
    pub fn complete<F: Fn(&ProgressFrame)>(&self, name: &str, size: u64, draw: F) -> (res: ProgressFrame)
        requires
            forall|fr: &ProgressFrame| draw.requires((fr,)),
        ensures
            call_ensures(draw, (&res,), ()),
            exists|b: ProgressModel|
                progress_inv(b, self.total()) && res@ == frame_of(
                    b,
                    ended(b, name@, size as usize as nat),
                    Some((Outcome::Downloaded, name@)),
                ),
    {
        let (mut state, write) = self.inner.acquire_write();
        let ghost before = state@;
        let frame = state.complete(name, size);
        assert(progress_inv(before, self.total()) && frame@ == frame_of(
            before,
            ended(before, name@, size as usize as nat),
            Some((Outcome::Downloaded, name@)),
        ));
        draw(&frame);
        write.release_write(state);
        frame
    }

    /// Records that the download `name` failed, and hands the display to
    /// `draw` while the state is still held.
    pub fn complete_err<F: Fn(&ProgressFrame)>(&self, name: &str, draw: F) -> (res: ProgressFrame)
        requires
            forall|fr: &ProgressFrame| draw.requires((fr,)),
        ensures
            call_ensures(draw, (&res,), ()),
            exists|b: ProgressModel|
                progress_inv(b, self.total()) && res@ == frame_of(
                    b,
                    ended(b, name@, 0),
                    Some((Outcome::Failed, name@)),
                ),
    {
        let (mut state, write) = self.inner.acquire_write();
        let ghost before = state@;
        let frame = state.complete_err(name);
        assert(progress_inv(before, self.total()) && frame@ == frame_of(
            before,
            ended(before, name@, 0),
            Some((Outcome::Failed, name@)),
        ));
        draw(&frame);
        write.release_write(state);
        frame
    }
}

/// Law: the handles of one progress all reach one shared state, which counts
/// the same number of downloads.
pub proof fn handles_share_one_state(p: &Progress, h1: &ProgressHandle, h2: &ProgressHandle)
    requires
        p.shares(h1),
        p.shares(h2),
    ensures
        h1.shares_with(h2),
        h1.total() == p.total(),
        h2.total() == p.total(),
{
}

/// Law: a download that starts and then ends leaves the downloads under way
/// as they were, when no download of that name was under way before; and it
/// counts one more download done.
pub proof fn start_then_end(p: ProgressModel, name: Seq<char>, bytes: nat)
    requires
        !p.active.contains(name),
        p.done < usize::MAX,
    ensures
        ended(started(p, name), name, bytes).active == p.active,
        ended(started(p, name), name, bytes).done == p.done + 1,
{
    reveal(Seq::filter);
    let s2 = p.active.push(name);
    assert(s2.drop_last() =~= p.active);
    assert(without_name(s2, name) == without_name(p.active, name));
    lemma_without_absent(p.active, name);
}

proof fn lemma_without_absent(s: Seq<Seq<char>>, name: Seq<char>)
    requires
        !s.contains(name),
    ensures
        without_name(s, name) == s,
    decreases s.len(),
{
    reveal(Seq::filter);
    if s.len() > 0 {
        assert(!s.drop_last().contains(name)) by {
            if s.drop_last().contains(name) {
                let i = choose|i: int| 0 <= i < s.drop_last().len() && s.drop_last()[i] == name;
                assert(s[i] == name);
            }
        }
        lemma_without_absent(s.drop_last(), name);
        assert(s.last() != name) by {
            assert(s[s.len() - 1] == s.last());
        }
        assert(s.drop_last().push(s.last()) =~= s);
    } else {
        assert(without_name(s, name) =~= s);
    }
}

} // verus!

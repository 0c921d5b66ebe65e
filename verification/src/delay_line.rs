use vstd::prelude::*;
use vstd::arithmetic::div_mod::{
    lemma_add_mod_noop_right, lemma_mod_add_multiples_vanish, lemma_mod_bound, lemma_sub_mod_noop_right,
    lemma_mod_equivalence, lemma_mod_self_0, lemma_small_mod, lemma_sub_mod_noop,
};

verus! {

/// Abstract state of a delay line: the stored samples, the slot the next
/// sample is written to, and the delay in samples.
pub struct DelayState<S> {
    pub samples: Seq<S>,
    pub write_pos: nat,
    pub delay: nat,
}

impl<S> DelayState<S> {
    pub open spec fn len(self) -> nat {
        self.samples.len()
    }

    /// The write position lies inside the buffer (and is 0 when the buffer is empty).
    pub open spec fn wf(self) -> bool {
        if self.len() == 0 {
            self.write_pos == 0
        } else {
            self.write_pos < self.len()
        }
    }

    /// The slot that lies `delay` samples behind the write position.
    pub open spec fn read_pos(self) -> int {
        (self.write_pos - self.delay) % (self.len() as int)
    }

    /// The sample that the next processing step reads.
    pub open spec fn delayed(self) -> S {
        self.samples[self.read_pos()]
    }

    /// One processing step: `written` goes into the write slot, which then advances.
    pub open spec fn step(self, written: S) -> DelayState<S> {
        DelayState {
            samples: self.samples.update(self.write_pos as int, written),
            write_pos: (self.write_pos + 1) % self.len(),
            delay: self.delay,
        }
    }

    /// The state after writing each of `written`, in order.
    pub open spec fn run(self, written: Seq<S>) -> DelayState<S>
        decreases written.len(),
    {
        if written.len() == 0 {
            self
        } else {
            self.run(written.drop_last()).step(written.last())
        }
    }

    /// How many steps after a write that sample is read again: the delay, or a
    /// whole buffer length when the delay is 0.
    pub open spec fn echo_distance(self) -> nat {
        if self.delay == 0 {
            self.len()
        } else {
            self.delay
        }
    }
}

/// `s` grown with copies of `fill`, or cut, to length `n`.
pub open spec fn resized<S>(s: Seq<S>, n: nat, fill: S) -> Seq<S> {
    if n <= s.len() {
        s.subrange(0, n as int)
    } else {
        s + Seq::new((n - s.len()) as nat, |i: int| fill)
    }
}

/// A circular buffer of samples with a write position and a delay in samples.
pub struct DelayLine<S> {
    buffer: Vec<S>,
    write_pos: usize,
    delay_samples: usize,
}

impl<S> View for DelayLine<S> {
    type V = DelayState<S>;

    closed spec fn view(&self) -> DelayState<S> {
        DelayState {
            samples: self.buffer@,
            write_pos: self.write_pos as nat,
            delay: self.delay_samples as nat,
        }
    }
}

impl<S: Copy> DelayLine<S> {
    pub open spec fn wf(&self) -> bool {
        self@.wf()
    }

    /// A line of `len` samples, all `fill`, writing at slot 0 with no delay.
    pub fn new(len: usize, fill: S) -> (line: Self)
        ensures
            line.wf(),
            line@.samples == Seq::new(len as nat, |i: int| fill),
            line@.write_pos == 0,
            line@.delay == 0,
    {
        let mut buffer: Vec<S> = Vec::with_capacity(len);
        let mut i: usize = 0;
        while i < len
            invariant
                i <= len,
                buffer@ == Seq::new(i as nat, |k: int| fill),
            decreases len - i,
        {
            buffer.push(fill);
            i += 1;
        }
        DelayLine { buffer, write_pos: 0, delay_samples: 0 }
    }

    /// Number of samples the line holds.
    pub fn len(&self) -> (n: usize)
        ensures
            n == self@.len(),
    {
        self.buffer.len()
    }

    /// The slot the next sample is written to.
    pub fn write_pos(&self) -> (p: usize)
        ensures
            p == self@.write_pos,
    {
        self.write_pos
    }

    /// The delay, in samples.
    pub fn delay_samples(&self) -> (d: usize)
        ensures
            d == self@.delay,
    {
        self.delay_samples
    }

    /// Sets the delay to `samples`, taken modulo the buffer length.
    pub fn set_delay_samples(&mut self, samples: usize)
        requires
            old(self).wf(),
            old(self)@.len() > 0,
        ensures
            final(self).wf(),
            final(self)@.samples == old(self)@.samples,
            final(self)@.write_pos == old(self)@.write_pos,
            final(self)@.delay == (samples as nat) % old(self)@.len(),
            final(self)@.delay < final(self)@.len(),
    {
        self.delay_samples = samples % self.buffer.len();
    }

    /// Grows the buffer with copies of `fill`, or cuts it, to `new_len` samples,
    /// and wraps the write position into the new length. The delay is kept.
    pub fn resize(&mut self, new_len: usize, fill: S)
        requires
            old(self).wf(),
            new_len > 0,
        ensures
            final(self).wf(),
            final(self)@.samples == resized(old(self)@.samples, new_len as nat, fill),
            final(self)@.len() == new_len,
            forall|j: int|
                0 <= j < new_len && j < old(self)@.len() ==> final(self)@.samples[j] == old(
                    self,
                )@.samples[j],
            forall|j: int| old(self)@.len() <= j < new_len ==> final(self)@.samples[j] == fill,
            final(self)@.write_pos == old(self)@.write_pos % (new_len as nat),
            final(self)@.delay == old(self)@.delay,
    {
        let old_len = self.buffer.len();
        if new_len <= old_len {
            self.buffer.truncate(new_len);
        } else {
            self.buffer.reserve(new_len - old_len);
            let ghost base = self.buffer@;
            let mut i: usize = old_len;
            while i < new_len
                invariant
                    old_len <= i <= new_len,
                    base.len() == old_len,
                    self.write_pos == old(self).write_pos,
                    self.delay_samples == old(self).delay_samples,
                    self.buffer@ == base + Seq::new((i - old_len) as nat, |k: int| fill),
                decreases new_len - i,
            {
                self.buffer.push(fill);
                i += 1;
                assert(self.buffer@ =~= base + Seq::new((i - old_len) as nat, |k: int| fill));
            }
        }
        self.write_pos = self.write_pos % new_len;
    }

    /// The slot `delay` samples behind the write position.
    fn read_pos(&self) -> (p: usize)
        requires
            self.wf(),
            self@.len() > 0,
        ensures
            p == self@.read_pos(),
            p < self@.len(),
    {
        let len = self.buffer.len();
        let d = self.delay_samples % len;
        let wp = self.write_pos;
        proof {
            lemma_sub_mod_noop_right(wp as int, self.delay_samples as int, len as int);
        }
        if d <= wp {
            proof {
                lemma_small_mod((wp - d) as nat, len as nat);
            }
            wp - d
        } else {
            proof {
                lemma_mod_add_multiples_vanish(wp - d, len as int);
                lemma_small_mod((len - (d - wp)) as nat, len as nat);
            }
            len - (d - wp)
        }
    }

    /// The sample the next processing step reads.
    pub fn delayed(&self) -> (x: S)
        requires
            self.wf(),
            self@.len() > 0,
        ensures
            x == self@.delayed(),
    {
        let p = self.read_pos();
        self.buffer[p]
    }

    /// Processes one sample. On an empty line the input comes back unchanged.
    /// Otherwise `mix` gets the input and the delayed sample and returns the
    /// output and the sample to write back; that sample goes into the write
    /// slot, and the write position advances by one, wrapping at the end.
    pub fn process_sample<F: Fn(S, S) -> (S, S)>(&mut self, input: S, mix: &F) -> (out: S)
        requires
            old(self).wf(),
            forall|a: S, b: S| mix.requires((a, b)),
        ensures
            final(self).wf(),
            old(self)@.len() == 0 ==> out == input && final(self)@ == old(self)@,
            old(self)@.len() > 0 ==> {
                let written = final(self)@.samples[old(self)@.write_pos as int];
                &&& mix.ensures((input, old(self)@.delayed()), (out, written))
                &&& final(self)@ == old(self)@.step(written)
            },
    {
        if self.buffer.len() == 0 {
            return input;
        }
        let len = self.buffer.len();
        let delayed = self.delayed();
        let (out, written) = mix(input, delayed);
        let wp = self.write_pos;
        self.buffer[wp] = written;
        self.write_pos = (wp + 1) % len;
        out
    }
}

/// Resizing: the result has the new length, every old sample that fits stays
/// in its slot, and the slots beyond the old length hold the fill value.
pub proof fn lemma_resized<S>(s: Seq<S>, n: nat, fill: S)
    ensures
        resized(s, n, fill).len() == n,
        forall|j: int| 0 <= j < n && j < s.len() ==> #[trigger] resized(s, n, fill)[j] == s[j],
        forall|j: int| s.len() <= j < n ==> #[trigger] resized(s, n, fill)[j] == fill,
{
}

/// One step writes its sample into the write slot and nowhere else, keeps the
/// length and the delay, and moves the write position one slot on, back to 0
/// after the last slot.
pub proof fn lemma_step<S>(st: DelayState<S>, w: S)
    requires
        st.wf(),
        st.len() > 0,
    ensures
        st.step(w).len() == st.len(),
        st.step(w).samples[st.write_pos as int] == w,
        forall|j: int|
            0 <= j < st.len() && j != st.write_pos ==> #[trigger] st.step(w).samples[j]
                == st.samples[j],
        st.step(w).write_pos == if st.write_pos + 1 == st.len() {
            0
        } else {
            st.write_pos + 1
        },
        st.step(w).delay == st.delay,
        st.step(w).wf(),
{
    if st.write_pos + 1 < st.len() {
        lemma_small_mod((st.write_pos + 1) as nat, st.len());
    } else {
        lemma_mod_self_0(st.len() as int);
    }
}

/// The read slot lies inside the line, and going `delay` slots forward from it,
/// around the end, reaches the write position.
pub proof fn lemma_read_pos<S>(st: DelayState<S>)
    requires
        st.wf(),
        st.len() > 0,
    ensures
        0 <= st.read_pos() < st.len(),
        (st.read_pos() + st.delay) % (st.len() as int) == st.write_pos,
        st.delayed() == st.samples[st.read_pos()],
{
    let m = st.len() as int;
    let x = st.write_pos - st.delay;
    lemma_mod_bound(x, m);
    lemma_add_mod_noop_right(st.delay as int, x, m);
    assert(st.delay + x == st.write_pos);
    lemma_small_mod(st.write_pos, st.len());
}

/// Two integers less than `m` apart, and not equal, differ modulo `m`.
proof fn lemma_mod_distinct(a: int, b: int, m: int)
    requires
        0 < m,
        a != b,
        a - b < m,
        b - a < m,
    ensures
        a % m != b % m,
{
    lemma_mod_equivalence(a, b, m);
    lemma_mod_equivalence(b, a, m);
    if a > b {
        lemma_small_mod((a - b) as nat, m as nat);
    } else {
        lemma_small_mod((b - a) as nat, m as nat);
    }
}

/// After a run, the slots written by the last `len` writes hold those writes.
pub proof fn lemma_run_recent<S>(st: DelayState<S>, ws: Seq<S>)
    requires
        st.wf(),
        st.len() > 0,
    ensures
        forall|k: int|
            0 <= k < ws.len() && ws.len() - st.len() <= k ==> st.run(ws).samples[#[trigger] ((
            st.write_pos + k) % (st.len() as int))] == ws[k],
    decreases ws.len(),
{
    if ws.len() > 0 {
        let m = st.len() as int;
        let n = ws.len() as int;
        let prev = ws.drop_last();
        lemma_run_recent(st, prev);
        lemma_run_shape(st, prev);
        assert forall|k: int| 0 <= k < n && n - m <= k implies st.run(ws).samples[#[trigger] ((
            st.write_pos + k) % m)] == ws[k] by {
            if k < n - 1 {
                lemma_mod_distinct(st.write_pos + k, st.write_pos + n - 1, m);
                assert(prev[k] == ws[k]);
            }
        }
    }
}

/// A slot that no write of a run went to keeps its sample.
pub proof fn lemma_run_untouched<S>(st: DelayState<S>, ws: Seq<S>, j: int)
    requires
        st.wf(),
        st.len() > 0,
        0 <= j < st.len(),
        forall|k: int|
            0 <= k < ws.len() ==> #[trigger] ((st.write_pos + k) % (st.len() as int)) != j,
    ensures
        st.run(ws).samples[j] == st.samples[j],
    decreases ws.len(),
{
    if ws.len() > 0 {
        let prev = ws.drop_last();
        let k = ws.len() - 1;
        assert((st.write_pos + k) % (st.len() as int) != j);
        lemma_run_untouched(st, prev, j);
        lemma_run_shape(st, prev);
    }
}

/// The slot read after `n` writes is the one written `echo_distance` writes earlier.
proof fn lemma_read_pos_after<S>(st: DelayState<S>, ws: Seq<S>)
    requires
        st.wf(),
        st.len() > 0,
        st.delay < st.len(),
    ensures
        st.run(ws).read_pos() == (st.write_pos + ws.len() - st.echo_distance()) % (
        st.len() as int),
{
    let m = st.len() as int;
    let n = ws.len() as int;
    lemma_run_shape(st, ws);
    lemma_sub_mod_noop(st.write_pos + n, st.delay as int, m);
    lemma_small_mod(st.delay, st.len());
    if st.delay == 0 {
        lemma_mod_add_multiples_vanish(st.write_pos + n - m, m);
    }
}

/// Echo: with a delay shorter than the buffer, a sample written to the line is
/// the delayed sample exactly `echo_distance` writes later (the delay, or a
/// whole buffer length when the delay is 0).
pub proof fn lemma_echo<S>(st: DelayState<S>, ws: Seq<S>)
    requires
        st.wf(),
        st.len() > 0,
        st.delay < st.len(),
        ws.len() >= st.echo_distance(),
    ensures
        st.run(ws).delayed() == ws[ws.len() - st.echo_distance()],
{
    lemma_read_pos_after(st, ws);
    lemma_run_recent(st, ws);
    let k = ws.len() - st.echo_distance();
    assert(st.run(ws).samples[(st.write_pos + k) % (st.len() as int)] == ws[k]);
}

/// Before the first echo: while fewer than `echo_distance` samples have been
/// written, the delayed sample still comes from the line's earlier contents.
pub proof fn lemma_before_echo<S>(st: DelayState<S>, ws: Seq<S>)
    requires
        st.wf(),
        st.len() > 0,
        st.delay < st.len(),
        ws.len() < st.echo_distance(),
    ensures
        st.run(ws).delayed() == st.samples[(st.write_pos + ws.len() - st.echo_distance()) % (
        st.len() as int)],
{
    let m = st.len() as int;
    let n = ws.len() as int;
    let e = st.echo_distance() as int;
    lemma_read_pos_after(st, ws);
    let j = (st.write_pos + n - e) % m;
    assert forall|k: int| 0 <= k < n implies #[trigger] ((st.write_pos + k) % m) != j by {
        lemma_mod_distinct(st.write_pos + k, st.write_pos + n - e, m);
    }
    lemma_run_untouched(st, ws, j);
}

/// A line filled with one sample gives back that sample as its delayed sample
/// until the first write comes back round (`echo_distance` writes).
pub proof fn lemma_fresh_line_silent<S>(st: DelayState<S>, fill: S, ws: Seq<S>)
    requires
        st.len() > 0,
        st.wf(),
        st.delay < st.len(),
        st.samples == Seq::new(st.len(), |i: int| fill),
        ws.len() < st.echo_distance(),
    ensures
        st.run(ws).delayed() == fill,
{
    lemma_before_echo(st, ws);
    lemma_mod_bound(
        st.write_pos + ws.len() - st.echo_distance(),
        st.len() as int,
    );
}

/// Running two sequences of writes one after the other is running their
/// concatenation.
pub proof fn lemma_run_concat<S>(st: DelayState<S>, x: Seq<S>, y: Seq<S>)
    ensures
        st.run(x + y) == st.run(x).run(y),
    decreases y.len(),
{
    if y.len() == 0 {
        assert(x + y =~= x);
    } else {
        lemma_run_concat(st, x, y.drop_last());
        assert((x + y).drop_last() =~= x + y.drop_last());
        assert((x + y).last() == y.last());
    }
}

/// Shape of the state after a run: same length and delay, write position
/// advanced by the number of writes.
pub proof fn lemma_run_shape<S>(st: DelayState<S>, ws: Seq<S>)
    requires
        st.wf(),
        st.len() > 0,
    ensures
        st.run(ws).len() == st.len(),
        st.run(ws).delay == st.delay,
        st.run(ws).write_pos == (st.write_pos + ws.len()) % st.len(),
        st.run(ws).wf(),
    decreases ws.len(),
{
    if ws.len() > 0 {
        lemma_run_shape(st, ws.drop_last());
        let m = st.len() as int;
        let w = st.write_pos + ws.len() - 1;
        lemma_add_mod_noop_1(w, m);
    } else {
        lemma_small_mod(st.write_pos, st.len());
    }
}

proof fn lemma_add_mod_noop_1(x: int, m: int)
    requires
        0 < m,
        0 <= x,
    ensures
        (x % m + 1) % m == (x + 1) % m,
{
    lemma_add_mod_noop_right(1, x, m);
}

} // verus!

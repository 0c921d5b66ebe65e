use vstd::prelude::*;
use crate::delay_line::{lemma_echo, lemma_run_concat, lemma_run_shape, DelayLine, DelayState};

verus! {

/// The frames of an interleaved stereo buffer: frame `k` is samples `2k` and
/// `2k + 1`; a lone last sample makes a frame with itself on both channels.
pub open spec fn frames_of<S>(ins: Seq<S>) -> Seq<(S, S)> {
    Seq::new(
        ((ins.len() + 1) / 2) as nat,
        |k: int|
            (ins[2 * k], if 2 * k + 1 < ins.len() {
                ins[2 * k + 1]
            } else {
                ins[2 * k]
            }),
    )
}

/// `outs` is `frames` laid out interleaved, cut to the length of `outs`.
pub open spec fn interleaves<S>(outs: Seq<S>, frames: Seq<(S, S)>) -> bool {
    &&& frames.len() == (outs.len() + 1) / 2
    &&& forall|i: int|
        0 <= i < outs.len() ==> #[trigger] outs[i] == if i % 2 == 0 {
            frames[i / 2].0
        } else {
            frames[i / 2].1
        }
}

/// `mix` gives at most one result for each pair of arguments.
pub open spec fn mixer_is_function<S, F: Fn(S, S) -> (S, S)>(mix: F) -> bool {
    forall|a: S, b: S, r1: (S, S), r2: (S, S)|
        #![trigger mix.ensures((a, b), r1), mix.ensures((a, b), r2)]
        mix.ensures((a, b), r1) && mix.ensures((a, b), r2) ==> r1 == r2
}

impl<S> DelayState<(S, S)> {
    /// Each frame of `ins` went through the line into the frame of `outs` at the
    /// same index, writing back the frame of `written`: at each step `mix` was
    /// given, channel by channel, the input and the delayed sample of the state
    /// reached so far.
    pub open spec fn frames_mixed<F: Fn(S, S) -> (S, S)>(
        self,
        mix: F,
        ins: Seq<(S, S)>,
        outs: Seq<(S, S)>,
        written: Seq<(S, S)>,
    ) -> bool {
        &&& outs.len() == ins.len()
        &&& written.len() == ins.len()
        &&& forall|k: int|
            0 <= k < ins.len() ==> {
                &&& mix.ensures(
                    (ins[k].0, (#[trigger] self.run(written.take(k)).delayed()).0),
                    (outs[k].0, written[k].0),
                )
                &&& mix.ensures(
                    (ins[k].1, self.run(written.take(k)).delayed().1),
                    (outs[k].1, written[k].1),
                )
            }
    }

    /// Processing the interleaved stereo samples `ins` gives the samples `outs`
    /// and leaves the line in state `end`. An empty line passes every sample
    /// through unchanged.
    pub open spec fn processed<F: Fn(S, S) -> (S, S)>(
        self,
        mix: F,
        ins: Seq<S>,
        outs: Seq<S>,
        end: DelayState<(S, S)>,
    ) -> bool {
        &&& outs.len() == ins.len()
        &&& if self.len() == 0 {
            outs == ins && end == self
        } else {
            exists|fo: Seq<(S, S)>, written: Seq<(S, S)>|
                {
                    &&& self.frames_mixed(mix, frames_of(ins), fo, written)
                    &&& interleaves(outs, fo)
                    &&& end == self.run(written)
                }
        }
    }
}

/// Splitting an interleaved buffer after whole frames splits its frames there.
pub proof fn lemma_frames_of_concat<S>(a: Seq<S>, b: Seq<S>)
    requires
        a.len() % 2 == 0,
    ensures
        frames_of(a + b) == frames_of(a) + frames_of(b),
{
    let ka = a.len() / 2;
    assert forall|k: int| 0 <= k < frames_of(a + b).len() implies #[trigger] frames_of(a + b)[k]
        == (frames_of(a) + frames_of(b))[k] by {
        if k >= ka {
            assert((a + b)[2 * k] == b[2 * (k - ka)]);
            if 2 * k + 1 < a.len() + b.len() {
                assert((a + b)[2 * k + 1] == b[2 * (k - ka) + 1]);
            }
        }
    }
    assert(frames_of(a + b) =~= frames_of(a) + frames_of(b));
}

/// Interleaving splits after whole frames.
pub proof fn lemma_interleaves_concat<S>(
    oa: Seq<S>,
    ob: Seq<S>,
    fa: Seq<(S, S)>,
    fb: Seq<(S, S)>,
)
    requires
        oa.len() % 2 == 0,
        fa.len() == oa.len() / 2,
    ensures
        interleaves(oa + ob, fa + fb) <==> (interleaves(oa, fa) && interleaves(ob, fb)),
{
    let n = oa.len() as int;
    if interleaves(oa + ob, fa + fb) {
        assert forall|i: int| 0 <= i < oa.len() implies #[trigger] oa[i] == if i % 2 == 0 {
            fa[i / 2].0
        } else {
            fa[i / 2].1
        } by {
            assert((oa + ob)[i] == oa[i]);
        }
        assert forall|i: int| 0 <= i < ob.len() implies #[trigger] ob[i] == if i % 2 == 0 {
            fb[i / 2].0
        } else {
            fb[i / 2].1
        } by {
            assert((oa + ob)[n + i] == ob[i]);
            assert((n + i) / 2 == n / 2 + i / 2);
            assert((n + i) % 2 == i % 2);
        }
    }
    if interleaves(oa, fa) && interleaves(ob, fb) {
        assert forall|i: int| 0 <= i < (oa + ob).len() implies #[trigger] (oa + ob)[i] == if i
            % 2 == 0 {
            (fa + fb)[i / 2].0
        } else {
            (fa + fb)[i / 2].1
        } by {
            if i >= n {
                let j = i - n;
                assert(ob[j] == if j % 2 == 0 {
                    fb[j / 2].0
                } else {
                    fb[j / 2].1
                });
                assert(i / 2 == n / 2 + j / 2);
                assert(i % 2 == j % 2);
            } else {
                assert(oa[i] == if i % 2 == 0 {
                    fa[i / 2].0
                } else {
                    fa[i / 2].1
                });
            }
        }
    }
}

/// Appending one frame to an interleaved layout of whole frames appends its
/// left sample, and its right sample if there is room for it.
proof fn lemma_interleaves_push<S>(prev: Seq<S>, outs: Seq<S>, fo: Seq<(S, S)>, frame: (S, S))
    requires
        interleaves(prev, fo),
        prev.len() % 2 == 0,
        outs.len() == prev.len() + 1 || outs.len() == prev.len() + 2,
        outs.take(prev.len() as int) == prev,
        outs[prev.len() as int] == frame.0,
        outs.len() == prev.len() + 2 ==> outs[prev.len() as int + 1] == frame.1,
    ensures
        interleaves(outs, fo.push(frame)),
{
    let tail = outs.skip(prev.len() as int);
    assert(outs =~= prev + tail);
    assert(fo.push(frame) =~= fo + seq![frame]);
    assert(interleaves(tail, seq![frame]));
    lemma_interleaves_concat(prev, tail, fo, seq![frame]);
}

impl<S> DelayState<(S, S)> {
    /// Mixing one more frame: its channels went through `mix` with the delayed
    /// sample of the state the earlier writes lead to.
    proof fn lemma_frames_mixed_push<F: Fn(S, S) -> (S, S)>(
        self,
        mix: F,
        ins: Seq<(S, S)>,
        outs: Seq<(S, S)>,
        written: Seq<(S, S)>,
        frame_in: (S, S),
        frame_out: (S, S),
        w: (S, S),
    )
        requires
            self.frames_mixed(mix, ins, outs, written),
            mix.ensures((frame_in.0, self.run(written).delayed().0), (frame_out.0, w.0)),
            mix.ensures((frame_in.1, self.run(written).delayed().1), (frame_out.1, w.1)),
        ensures
            self.frames_mixed(mix, ins.push(frame_in), outs.push(frame_out), written.push(w)),
            self.run(written.push(w)) == self.run(written).step(w),
    {
        let k = written.len() as int;
        let ws = written.push(w);
        assert(ws.drop_last() =~= written);
        assert(ws.take(k) =~= written);
        assert forall|j: int| 0 <= j < k implies ws.take(j) =~= written.take(j) by {}
    }

    /// Mixing frames splits at any frame: the first part from this state, the
    /// rest from the state its writes lead to.
    pub proof fn lemma_frames_mixed_concat<F: Fn(S, S) -> (S, S)>(
        self,
        mix: F,
        ia: Seq<(S, S)>,
        ib: Seq<(S, S)>,
        oa: Seq<(S, S)>,
        ob: Seq<(S, S)>,
        wa: Seq<(S, S)>,
        wb: Seq<(S, S)>,
    )
        requires
            oa.len() == ia.len(),
            wa.len() == ia.len(),
        ensures
            self.frames_mixed(mix, ia + ib, oa + ob, wa + wb) <==> (self.frames_mixed(
                mix,
                ia,
                oa,
                wa,
            ) && self.run(wa).frames_mixed(mix, ib, ob, wb)),
    {
        let na = ia.len() as int;
        let mid = self.run(wa);
        assert forall|k: int| 0 <= k < na implies (wa + wb).take(k) =~= wa.take(k) by {}
        assert forall|k: int| 0 <= k <= wb.len() implies #[trigger] self.run(
            (wa + wb).take(na + k),
        ) == mid.run(wb.take(k)) by {
            assert((wa + wb).take(na + k) =~= wa + wb.take(k));
            lemma_run_concat(self, wa, wb.take(k));
        }
        if self.frames_mixed(mix, ia + ib, oa + ob, wa + wb) {
            assert forall|k: int| 0 <= k < ia.len() implies {
                &&& mix.ensures(
                    (ia[k].0, (#[trigger] self.run(wa.take(k)).delayed()).0),
                    (oa[k].0, wa[k].0),
                )
                &&& mix.ensures((ia[k].1, self.run(wa.take(k)).delayed().1), (oa[k].1, wa[k].1))
            } by {
                assert((wa + wb).take(k) =~= wa.take(k));
                assert(self.run((wa + wb).take(k)) == self.run(wa.take(k)));
                assert((ia + ib)[k] == ia[k]);
                assert((oa + ob)[k] == oa[k]);
                assert((wa + wb)[k] == wa[k]);
            }
            assert forall|k: int| 0 <= k < ib.len() implies {
                &&& mix.ensures(
                    (ib[k].0, (#[trigger] mid.run(wb.take(k)).delayed()).0),
                    (ob[k].0, wb[k].0),
                )
                &&& mix.ensures((ib[k].1, mid.run(wb.take(k)).delayed().1), (ob[k].1, wb[k].1))
            } by {
                assert(self.run((wa + wb).take(na + k)) == mid.run(wb.take(k)));
                assert((ia + ib)[na + k] == ib[k]);
                assert((oa + ob)[na + k] == ob[k]);
                assert((wa + wb)[na + k] == wb[k]);
            }
        }
        if self.frames_mixed(mix, ia, oa, wa) && mid.frames_mixed(mix, ib, ob, wb) {
            assert forall|k: int| 0 <= k < (ia + ib).len() implies {
                &&& mix.ensures(
                    ((ia + ib)[k].0, (#[trigger] self.run((wa + wb).take(k)).delayed()).0),
                    ((oa + ob)[k].0, (wa + wb)[k].0),
                )
                &&& mix.ensures(
                    ((ia + ib)[k].1, self.run((wa + wb).take(k)).delayed().1),
                    ((oa + ob)[k].1, (wa + wb)[k].1),
                )
            } by {
                if k < na {
                    assert((wa + wb).take(k) =~= wa.take(k));
                    assert(self.run(wa.take(k)) == self.run((wa + wb).take(k)));
                } else {
                    let j = k - na;
                    assert(self.run((wa + wb).take(na + j)) == mid.run(wb.take(j)));
                }
            }
        }
    }

    /// Processing `a ++ b`, where `a` holds whole frames, can give exactly what
    /// processing `a` and then `b` can give: the same output samples and the
    /// same final state of the line.
    pub proof fn lemma_process_concat<F: Fn(S, S) -> (S, S)>(
        self,
        mix: F,
        a: Seq<S>,
        b: Seq<S>,
        oa: Seq<S>,
        ob: Seq<S>,
        end: DelayState<(S, S)>,
    )
        requires
            self.wf(),
            a.len() % 2 == 0,
            oa.len() == a.len(),
            ob.len() == b.len(),
        ensures
            self.processed(mix, a + b, oa + ob, end) <==> exists|mid: DelayState<(S, S)>|
                self.processed(mix, a, oa, mid) && mid.processed(mix, b, ob, end),
    {
        assert((oa + ob).subrange(0, oa.len() as int) =~= oa);
        assert((oa + ob).subrange(oa.len() as int, (oa + ob).len() as int) =~= ob);
        assert((a + b).subrange(0, a.len() as int) =~= a);
        assert((a + b).subrange(a.len() as int, (a + b).len() as int) =~= b);
        if self.len() == 0 {
            if self.processed(mix, a + b, oa + ob, end) {
                assert(self.processed(mix, a, oa, self) && self.processed(mix, b, ob, end));
            }
            if exists|mid: DelayState<(S, S)>|
                self.processed(mix, a, oa, mid) && mid.processed(mix, b, ob, end) {
                let mid = choose|mid: DelayState<(S, S)>|
                    self.processed(mix, a, oa, mid) && mid.processed(mix, b, ob, end);
                assert(oa + ob =~= a + b);
            }
        } else {
            let ka = (a.len() / 2) as int;
            lemma_frames_of_concat(a, b);
            let fa = frames_of(a);
            let fb = frames_of(b);
            if self.processed(mix, a + b, oa + ob, end) {
                let (fo, w) = choose|fo: Seq<(S, S)>, w: Seq<(S, S)>|
                    {
                        &&& self.frames_mixed(mix, frames_of(a + b), fo, w)
                        &&& interleaves(oa + ob, fo)
                        &&& end == self.run(w)
                    };
                let foa = fo.take(ka);
                let fob = fo.skip(ka);
                let wa = w.take(ka);
                let wb = w.skip(ka);
                assert(fo =~= foa + fob);
                assert(w =~= wa + wb);
                self.lemma_frames_mixed_concat(mix, fa, fb, foa, fob, wa, wb);
                lemma_interleaves_concat(oa, ob, foa, fob);
                lemma_run_concat(self, wa, wb);
                lemma_run_shape(self, wa);
                let mid = self.run(wa);
                assert(self.processed(mix, a, oa, mid));
                assert(mid.processed(mix, b, ob, end));
            }
            if exists|mid: DelayState<(S, S)>|
                self.processed(mix, a, oa, mid) && mid.processed(mix, b, ob, end) {
                let mid = choose|mid: DelayState<(S, S)>|
                    self.processed(mix, a, oa, mid) && mid.processed(mix, b, ob, end);
                let (foa, wa) = choose|fo: Seq<(S, S)>, w: Seq<(S, S)>|
                    {
                        &&& self.frames_mixed(mix, fa, fo, w)
                        &&& interleaves(oa, fo)
                        &&& mid == self.run(w)
                    };
                lemma_run_shape(self, wa);
                let (fob, wb) = choose|fo: Seq<(S, S)>, w: Seq<(S, S)>|
                    {
                        &&& mid.frames_mixed(mix, fb, fo, w)
                        &&& interleaves(ob, fo)
                        &&& end == mid.run(w)
                    };
                self.lemma_frames_mixed_concat(mix, fa, fb, foa, fob, wa, wb);
                lemma_interleaves_concat(oa, ob, foa, fob);
                lemma_run_concat(self, wa, wb);
                assert(self.frames_mixed(mix, frames_of(a + b), foa + fob, wa + wb));
                assert(interleaves(oa + ob, foa + fob));
            }
        }
    }

    /// With a mixer that is a function, the frames written and given out by
    /// the first `k` steps are fixed by the inputs.
    proof fn lemma_frames_mixed_prefix<F: Fn(S, S) -> (S, S)>(
        self,
        mix: F,
        ins: Seq<(S, S)>,
        o1: Seq<(S, S)>,
        w1: Seq<(S, S)>,
        o2: Seq<(S, S)>,
        w2: Seq<(S, S)>,
        k: int,
    )
        requires
            mixer_is_function(mix),
            self.frames_mixed(mix, ins, o1, w1),
            self.frames_mixed(mix, ins, o2, w2),
            0 <= k <= ins.len(),
        ensures
            w1.take(k) == w2.take(k),
            o1.take(k) == o2.take(k),
        decreases k,
    {
        if k > 0 {
            let j = k - 1;
            self.lemma_frames_mixed_prefix(mix, ins, o1, w1, o2, w2, j);
            let d1 = self.run(w1.take(j)).delayed();
            let d2 = self.run(w2.take(j)).delayed();
            assert(d1 == d2);
            assert(mix.ensures((ins[j].0, d1.0), (o1[j].0, w1[j].0)));
            assert(mix.ensures((ins[j].0, d1.0), (o2[j].0, w2[j].0)));
            assert(mix.ensures((ins[j].1, d1.1), (o1[j].1, w1[j].1)));
            assert(mix.ensures((ins[j].1, d1.1), (o2[j].1, w2[j].1)));
            assert((o1[j].0, w1[j].0) == (o2[j].0, w2[j].0));
            assert((o1[j].1, w1[j].1) == (o2[j].1, w2[j].1));
            assert(w1.take(k) =~= w1.take(j).push(w1[j]));
            assert(w2.take(k) =~= w2.take(j).push(w2[j]));
            assert(o1.take(k) =~= o1.take(j).push(o1[j]));
            assert(o2.take(k) =~= o2.take(j).push(o2[j]));
        } else {
            assert(w1.take(0) =~= w2.take(0));
            assert(o1.take(0) =~= o2.take(0));
        }
    }

    /// With a mixer that is a function, processing is a function too: the same
    /// state and input samples always give the same output samples and the
    /// same final state.
    pub proof fn lemma_processed_function<F: Fn(S, S) -> (S, S)>(
        self,
        mix: F,
        ins: Seq<S>,
        o1: Seq<S>,
        e1: DelayState<(S, S)>,
        o2: Seq<S>,
        e2: DelayState<(S, S)>,
    )
        requires
            mixer_is_function(mix),
            self.processed(mix, ins, o1, e1),
            self.processed(mix, ins, o2, e2),
        ensures
            o1 == o2,
            e1 == e2,
    {
        if self.len() > 0 {
            let fi = frames_of(ins);
            let (fo1, w1) = choose|fo: Seq<(S, S)>, w: Seq<(S, S)>|
                {
                    &&& self.frames_mixed(mix, fi, fo, w)
                    &&& interleaves(o1, fo)
                    &&& e1 == self.run(w)
                };
            let (fo2, w2) = choose|fo: Seq<(S, S)>, w: Seq<(S, S)>|
                {
                    &&& self.frames_mixed(mix, fi, fo, w)
                    &&& interleaves(o2, fo)
                    &&& e2 == self.run(w)
                };
            let n = fi.len() as int;
            self.lemma_frames_mixed_prefix(mix, fi, fo1, w1, fo2, w2, n);
            assert(w1 =~= w1.take(n));
            assert(w2 =~= w2.take(n));
            assert(fo1 =~= fo1.take(n));
            assert(fo2 =~= fo2.take(n));
            assert forall|i: int| 0 <= i < o1.len() implies o1[i] == o2[i] by {
                assert(o1[i] == if i % 2 == 0 {
                    fo1[i / 2].0
                } else {
                    fo1[i / 2].1
                });
                assert(o2[i] == if i % 2 == 0 {
                    fo2[i / 2].0
                } else {
                    fo2[i / 2].1
                });
            }
            assert(o1 =~= o2);
        }
    }

    /// Processing `a ++ b`, where `a` holds whole frames, with a mixer that is a
    /// function gives the same output samples and the same final state as
    /// processing `a` and then `b`.
    pub proof fn lemma_process_concat_function<F: Fn(S, S) -> (S, S)>(
        self,
        mix: F,
        a: Seq<S>,
        b: Seq<S>,
        outs: Seq<S>,
        end: DelayState<(S, S)>,
        oa: Seq<S>,
        mid: DelayState<(S, S)>,
        ob: Seq<S>,
        end2: DelayState<(S, S)>,
    )
        requires
            self.wf(),
            a.len() % 2 == 0,
            mixer_is_function(mix),
            self.processed(mix, a + b, outs, end),
            self.processed(mix, a, oa, mid),
            mid.processed(mix, b, ob, end2),
        ensures
            outs == oa + ob,
            end == end2,
    {
        self.lemma_process_concat(mix, a, b, oa, ob, end2);
        self.lemma_processed_function(mix, a + b, outs, end, oa + ob, end2);
    }

    /// Echo on each channel: with a mixer that gives out the delayed sample and
    /// writes the input back, and a delay shorter than the line, every output
    /// sample from frame `echo_distance` on is the input sample of the same
    /// channel `echo_distance` frames earlier; left and right never mix.
    pub proof fn lemma_interleaved_echo<F: Fn(S, S) -> (S, S)>(
        self,
        mix: F,
        ins: Seq<S>,
        outs: Seq<S>,
        end: DelayState<(S, S)>,
    )
        requires
            self.wf(),
            self.len() > 0,
            self.delay < self.len(),
            forall|a: S, b: S, r: (S, S)| #[trigger] mix.ensures((a, b), r) ==> r == (b, a),
            self.processed(mix, ins, outs, end),
        ensures
            forall|i: int|
                0 <= i < outs.len() && i / 2 >= self.echo_distance() ==> #[trigger] outs[i]
                    == ins[i - 2 * self.echo_distance()],
    {
        let e = self.echo_distance() as int;
        let fi = frames_of(ins);
        let (fo, w) = choose|fo: Seq<(S, S)>, w: Seq<(S, S)>|
            {
                &&& self.frames_mixed(mix, fi, fo, w)
                &&& interleaves(outs, fo)
                &&& end == self.run(w)
            };
        assert forall|k: int| 0 <= k < fi.len() implies #[trigger] w[k] == fi[k] by {
            let d = self.run(w.take(k)).delayed();
            assert(mix.ensures((fi[k].0, d.0), (fo[k].0, w[k].0)));
            assert(mix.ensures((fi[k].1, d.1), (fo[k].1, w[k].1)));
        }
        assert forall|i: int| 0 <= i < outs.len() && i / 2 >= e implies #[trigger] outs[i]
            == ins[i - 2 * e] by {
            let k = i / 2;
            let wk = w.take(k);
            let d = self.run(wk).delayed();
            assert(mix.ensures((fi[k].0, d.0), (fo[k].0, w[k].0)));
            assert(mix.ensures((fi[k].1, d.1), (fo[k].1, w[k].1)));
            lemma_echo(self, wk);
            assert(wk[k - e] == w[k - e]);
            assert(w[k - e] == fi[k - e]);
            assert(outs[i] == if i % 2 == 0 {
                fo[k].0
            } else {
                fo[k].1
            });
            if i % 2 == 1 {
                assert(2 * (k - e) + 1 < ins.len());
            }
        }
    }
}

impl<S: Copy> DelayLine<(S, S)> {
    /// Processes one stereo frame, each channel on its own: `mix` gets the left
    /// input and the left delayed sample, then the right input and the right
    /// delayed sample. On an empty line the frame comes back unchanged.
    pub fn process_frame<F: Fn(S, S) -> (S, S)>(&mut self, left: S, right: S, mix: &F) -> (out:
        (S, S))
        requires
            old(self).wf(),
            forall|a: S, b: S| mix.requires((a, b)),
        ensures
            final(self).wf(),
            old(self)@.len() == 0 ==> out == (left, right) && final(self)@ == old(self)@,
            old(self)@.len() > 0 ==> {
                let written = final(self)@.samples[old(self)@.write_pos as int];
                &&& mix.ensures((left, old(self)@.delayed().0), (out.0, written.0))
                &&& mix.ensures((right, old(self)@.delayed().1), (out.1, written.1))
                &&& final(self)@ == old(self)@.step(written)
            },
    {
        let frame_mix = |input: (S, S), delayed: (S, S)| -> (r: ((S, S), (S, S)))
            requires
                forall|a: S, b: S| mix.requires((a, b)),
            ensures
                mix.ensures((input.0, delayed.0), (r.0.0, r.1.0)),
                mix.ensures((input.1, delayed.1), (r.0.1, r.1.1)),
            {
                let (lo, lw) = mix(input.0, delayed.0);
                let (ro, rw) = mix(input.1, delayed.1);
                ((lo, ro), (lw, rw))
            };
        self.process_sample((left, right), &frame_mix)
    }

    /// Processes one mono sample: it goes in on both channels, and the left
    /// output comes back.
    pub fn process_mono<F: Fn(S, S) -> (S, S)>(&mut self, input: S, mix: &F) -> (out: S)
        requires
            old(self).wf(),
            forall|a: S, b: S| mix.requires((a, b)),
        ensures
            final(self).wf(),
            old(self)@.len() == 0 ==> out == input && final(self)@ == old(self)@,
            old(self)@.len() > 0 ==> {
                let written = final(self)@.samples[old(self)@.write_pos as int];
                &&& mix.ensures((input, old(self)@.delayed().0), (out, written.0))
                &&& exists|right_out: S|
                    mix.ensures((input, old(self)@.delayed().1), (right_out, written.1))
                &&& final(self)@ == old(self)@.step(written)
            },
    {
        let out = self.process_frame(input, input, mix);
        out.0
    }

    /// Processes an interleaved stereo buffer in place, frame by frame: each
    /// channel is delayed by the line's delay in frames and the channels never
    /// mix. A lone last sample is processed as a mono sample.
    pub fn process_interleaved<F: Fn(S, S) -> (S, S)>(&mut self, buffer: &mut [S], mix: &F)
        requires
            old(self).wf(),
            forall|a: S, b: S| mix.requires((a, b)),
        ensures
            final(self).wf(),
            old(self)@.processed(*mix, old(buffer)@, final(buffer)@, final(self)@),
    {
        let n = buffer.len();
        let ghost st0 = self@;
        let ghost ins = buffer@;
        let ghost fi = frames_of(ins);
        let ghost mut fo: Seq<(S, S)> = Seq::empty();
        let ghost mut written: Seq<(S, S)> = Seq::empty();
        let mut i: usize = 0;
        while i < n
            invariant
                i <= n,
                i % 2 == 0 || i == n,
                n == buffer@.len(),
                ins == old(buffer)@,
                ins.len() == n,
                fi == frames_of(ins),
                st0 == old(self)@,
                st0.wf(),
                self.wf(),
                forall|a: S, b: S| mix.requires((a, b)),
                forall|j: int| i <= j < n ==> buffer@[j] == ins[j],
                st0.len() == 0 ==> self@ == st0 && buffer@ == ins,
                st0.len() > 0 ==> {
                    &&& written.len() == (i + 1) / 2
                    &&& self@ == st0.run(written)
                    &&& st0.frames_mixed(*mix, fi.take(written.len() as int), fo, written)
                    &&& interleaves(buffer@.take(i as int), fo)
                },
            decreases n - i,
        {
            let ghost before = self@;
            let ghost buf_before = buffer@;
            let ghost k = written.len() as int;
            proof {
                if st0.len() > 0 {
                    lemma_run_shape(st0, written);
                    assert(fi.take(k + 1) =~= fi.take(k).push(fi[k]));
                }
            }
            if i + 1 < n {
                let l = buffer[i];
                let r = buffer[i + 1];
                let out = self.process_frame(l, r, mix);
                buffer[i] = out.0;
                buffer[i + 1] = out.1;
                proof {
                    if st0.len() > 0 {
                        let w = self@.samples[before.write_pos as int];
                        assert(fi[k] == (l, r));
                        st0.lemma_frames_mixed_push(*mix, fi.take(k), fo, written, fi[k], out, w);
                        assert(buffer@.take(i + 2).take(i as int) =~= buf_before.take(i as int));
                        lemma_interleaves_push(buf_before.take(i as int), buffer@.take(i + 2), fo, out);
                        written = written.push(w);
                        fo = fo.push(out);
                    }
                }
                i = i + 2;
            } else {
                let x = buffer[i];
                let y = self.process_mono(x, mix);
                buffer[i] = y;
                proof {
                    if st0.len() > 0 {
                        let w = self@.samples[before.write_pos as int];
                        let right_out = choose|ro: S|
                            mix.ensures((x, before.delayed().1), (ro, w.1));
                        assert(fi[k] == (x, x));
                        st0.lemma_frames_mixed_push(
                            *mix,
                            fi.take(k),
                            fo,
                            written,
                            fi[k],
                            (y, right_out),
                            w,
                        );
                        assert(buffer@.take(i + 1).take(i as int) =~= buf_before.take(i as int));
                        lemma_interleaves_push(
                            buf_before.take(i as int),
                            buffer@.take(i + 1),
                            fo,
                            (y, right_out),
                        );
                        written = written.push(w);
                        fo = fo.push((y, right_out));
                    }
                }
                i = i + 1;
            }
        }
        proof {
            if st0.len() > 0 {
                assert(buffer@.take(n as int) =~= buffer@);
                assert(fi.take(written.len() as int) =~= fi);
                assert(st0.frames_mixed(*mix, fi, fo, written));
                assert(interleaves(buffer@, fo));
            }
        }
    }
}

} // verus!

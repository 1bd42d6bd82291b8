//! Skipping to the end of the current container with the depth classifier.
use vstd::prelude::*;
use crate::classification::depth::{
    delta, is_matching_close, is_opening_byte, lemma_delta_bounds, lemma_delta_no_close,
    lemma_delta_split, DepthBlock, DepthIterator, DepthVector, VectorIterator,
};
use crate::classification::structural::{next_event_spec, StructuralClassifier, StructuralEvent};

verus! {

/// A structural classifier that can skip to the end of the container it is in.
pub struct TailSkip<'a> {
    classifier: Option<StructuralClassifier<'a>>,
}

impl<'a> TailSkip<'a> {
    pub closed spec fn inner(&self) -> StructuralClassifier<'a> {
        self.classifier.unwrap()
    }

    pub open spec fn wf(&self) -> bool {
        self.has_inner() && self.inner().wf()
    }

    pub closed spec fn has_inner(&self) -> bool {
        self.classifier.is_some()
    }

    pub open spec fn input(&self) -> Seq<u8> {
        self.inner().input()
    }

    pub open spec fn cursor(&self) -> int {
        self.inner().cursor()
    }

    pub open spec fn colons_on(&self) -> bool {
        self.inner().colons_on()
    }

    pub open spec fn commas_on(&self) -> bool {
        self.inner().commas_on()
    }

    /// Wrap a structural classifier.
    pub fn new(classifier: StructuralClassifier<'a>) -> (r: Self)
        ensures
            r.has_inner(),
            r.inner() == classifier,
    {
        TailSkip { classifier: Some(classifier) }
    }

    /// The next structural event; see [`StructuralClassifier::next`].
    pub fn next(&mut self) -> (r: Option<StructuralEvent>)
        requires
            old(self).wf(),
        ensures
            final(self).wf(),
            final(self).input() == old(self).input(),
            final(self).colons_on() == old(self).colons_on(),
            final(self).commas_on() == old(self).commas_on(),
            next_event_spec(
                old(self).input(),
                old(self).cursor(),
                old(self).colons_on(),
                old(self).commas_on(),
                r,
                final(self).cursor(),
            ),
    {
        let mut c = self.classifier.take().unwrap();
        let r = c.next();
        self.classifier = Some(c);
        r
    }

    /// Report colons from the byte after `idx` on.
    pub fn turn_colons_on(&mut self, idx: usize)
        requires
            old(self).wf(),
        ensures
            final(self).wf(),
            final(self).input() == old(self).input(),
            final(self).cursor() == old(self).cursor(),
            final(self).colons_on(),
            final(self).commas_on() == old(self).commas_on(),
    {
        let mut c = self.classifier.take().unwrap();
        c.turn_colons_on(idx);
        self.classifier = Some(c);
    }

    /// Stop reporting colons.
    pub fn turn_colons_off(&mut self)
        requires
            old(self).wf(),
        ensures
            final(self).wf(),
            final(self).input() == old(self).input(),
            final(self).cursor() == old(self).cursor(),
            !final(self).colons_on(),
            final(self).commas_on() == old(self).commas_on(),
    {
        let mut c = self.classifier.take().unwrap();
        c.turn_colons_off();
        self.classifier = Some(c);
    }

    /// Report commas from the byte after `idx` on.
    pub fn turn_commas_on(&mut self, idx: usize)
        requires
            old(self).wf(),
        ensures
            final(self).wf(),
            final(self).input() == old(self).input(),
            final(self).cursor() == old(self).cursor(),
            final(self).commas_on(),
            final(self).colons_on() == old(self).colons_on(),
    {
        let mut c = self.classifier.take().unwrap();
        c.turn_commas_on(idx);
        self.classifier = Some(c);
    }

    /// Stop reporting commas.
    pub fn turn_commas_off(&mut self)
        requires
            old(self).wf(),
        ensures
            final(self).wf(),
            final(self).input() == old(self).input(),
            final(self).cursor() == old(self).cursor(),
            !final(self).commas_on(),
            final(self).colons_on() == old(self).colons_on(),
    {
        let mut c = self.classifier.take().unwrap();
        c.turn_commas_off();
        self.classifier = Some(c);
    }

    /// Skip to the bracket that closes the container of the kind `opening` opens, in
    /// which the cursor stands, and resume classification just after it. Returns its
    /// offset, or the length of the document when the container is never closed.
    pub fn skip(&mut self, opening: u8) -> (r: usize)
        requires
            old(self).wf(),
            is_opening_byte(opening),
        ensures
            final(self).wf(),
            final(self).input() == old(self).input(),
            final(self).colons_on() == old(self).colons_on(),
            final(self).commas_on() == old(self).commas_on(),
            r < old(self).input().len() ==> {
                &&& is_matching_close(old(self).input(), opening, old(self).cursor(), r as int)
                &&& final(self).cursor() == r + 1
            },
            r >= old(self).input().len() ==> {
                &&& r == old(self).input().len()
                &&& final(self).cursor() == old(self).input().len()
                &&& forall|q: int| old(self).cursor() < q <= old(self).input().len() ==>
                    delta(old(self).input(), opening, old(self).cursor(), q) >= 0
            },
    {
        let classifier = self.classifier.take().unwrap();
        proof {
            classifier.lemma_cursor_bounded();
        }
        let ghost s = classifier.input();
        let ghost from = classifier.cursor();
        let ghost c0 = classifier.colons_on();
        let ghost m0 = classifier.commas_on();
        let len: usize = classifier.input_len();
        let state = classifier.stop();
        let (first, mut iter) = VectorIterator::resume(state, opening);
        let mut current_depth: isize = 1;
        let mut vector: Option<DepthVector<'a>> = first;
        loop
            invariant
                iter.wf(),
                iter.input() == s,
                iter.opening() == opening,
                iter.colons() == c0,
                iter.commas() == m0,
                len == s.len(),
                s.len() <= isize::MAX,
                s.len() % 64 == 0,
                0 <= from <= s.len(),
                is_opening_byte(opening),
                self.classifier.is_none(),
                s == old(self).input(),
                from == old(self).cursor(),
                c0 == old(self).colons_on(),
                m0 == old(self).commas_on(),
                match vector {
                    Some(v) => {
                        &&& v.inv()
                        &&& v.input() == s
                        &&& v.opening() == opening
                        &&& v.end() == iter.pos()
                        &&& v.depth_spec() == 0
                        &&& from <= v.pos()
                        &&& current_depth == 1 + delta(s, opening, from, v.pos())
                        &&& forall|q: int| from < q <= v.pos() ==> delta(s, opening, from, q) >= 0
                    },
                    None => {
                        &&& from <= iter.pos()
                        &&& current_depth == 1 + delta(s, opening, from, iter.pos())
                        &&& forall|q: int| from < q <= iter.pos() ==> delta(s, opening, from, q) >= 0
                    },
                },
            decreases 2 * (s.len() - iter.pos()) + if vector.is_some() { 1int } else { 0int },
        {
            proof {
                iter.lemma_wf();
            }
            match vector {
                None => {
                    let next = iter.next();
                    if next.is_none() {
                        let state = iter.stop(None);
                        self.classifier = Some(StructuralClassifier::resume(state));
                        return len;
                    }
                    vector = next;
                },
                Some(mut v) => {
                    proof {
                        v.lemma_inv();
                        lemma_delta_bounds(s, opening, from, v.pos());
                    }
                    let ghost vpos = v.pos();
                    proof {
                        v.lemma_can_add(current_depth as int);
                    }
                    v.add_depth(current_depth);
                    proof {
                        v.lemma_inv();
                        lemma_delta_split(s, opening, from, vpos, v.end());
                    }
                    let estimate = v.estimate_lowest_possible_depth();
                    if estimate <= 0 {
                        loop
                            invariant
                                v.inv(),
                                v.input() == s,
                                v.opening() == opening,
                                v.end() == iter.pos(),
                                from <= vpos <= v.pos(),
                                v.depth_spec() == 1 + delta(s, opening, from, v.pos()),
                                v.depth_spec() >= 1,
                                v.end_depth_spec() == 1 + delta(s, opening, from, v.end()),
                                forall|q: int| from < q <= v.pos() ==> delta(s, opening, from, q) >= 0,
                                iter.wf(),
                                iter.input() == s,
                                iter.opening() == opening,
                                iter.colons() == c0,
                                iter.commas() == m0,
                                len == s.len(),
                                self.classifier.is_none(),
                                s == old(self).input(),
                                from == old(self).cursor(),
                                c0 == old(self).colons_on(),
                                m0 == old(self).commas_on(),
                            ensures
                                v.inv(),
                                v.input() == s,
                                v.opening() == opening,
                                v.end() == iter.pos(),
                                v.pos() == iter.pos(),
                                v.end_depth_spec() == 1 + delta(s, opening, from, v.end()),
                                forall|q: int| from < q <= v.pos() ==> delta(s, opening, from, q) >= 0,
                                iter.wf(),
                                iter.input() == s,
                                iter.opening() == opening,
                                iter.colons() == c0,
                                iter.commas() == m0,
                                self.classifier.is_none(),
                            decreases v.end() - v.pos(),
                        {
                            proof {
                                v.lemma_inv();
                            }
                            let ghost before = v.pos();
                            let advanced = v.advance_to_next_depth_decrease();
                            proof {
                                v.lemma_inv();
                                lemma_delta_split(s, opening, from, before, v.pos());
                                if advanced {
                                    assert forall|q: int| from < q <= v.pos() - 1 implies delta(s, opening, from, q) >= 0 by {
                                        if q > before {
                                            lemma_delta_no_close(s, opening, before, q);
                                            lemma_delta_split(s, opening, from, before, q);
                                        }
                                    }
                                    lemma_delta_no_close(s, opening, before, v.pos() - 1);
                                    lemma_delta_split(s, opening, from, before, v.pos() - 1);
                                } else {
                                    assert forall|q: int| from < q <= v.pos() implies delta(s, opening, from, q) >= 0 by {
                                        if q > before {
                                            lemma_delta_no_close(s, opening, before, q);
                                            lemma_delta_split(s, opening, from, before, q);
                                        }
                                    }
                                }
                            }
                            if !advanced {
                                assert(v.pos() == iter.pos());
                                break;
                            }
                            if v.get_depth() == 0 {
                                let idx: usize = v.get_idx() - 1;
                                let state = iter.stop(Some(v));
                                self.classifier = Some(StructuralClassifier::resume(state));
                                return idx;
                            }
                        }
                    } else {
                        proof {
                            assert forall|q: int| vpos < q <= v.end() implies delta(s, opening, from, q) >= 0 by {
                                lemma_delta_split(s, opening, from, vpos, q);
                            }
                        }
                    }
                    proof {
                        lemma_delta_split(s, opening, from, vpos, v.end());
                    }
                    current_depth = v.depth_at_end();
                    vector = None;

                },
            }
        }
    }
}

} // verus!

use vstd::prelude::*;

verus! {

/// The value components of a stack of (value, running minimum) pairs.
pub open spec fn stack_values(s: Seq<(i64, i64)>) -> Seq<i64> {
    s.map_values(|p: (i64, i64)| p.0)
}

/// The least element of a non-empty sequence.
pub open spec fn seq_min(s: Seq<i64>) -> i64
    recommends
        s.len() > 0,
    decreases s.len(),
{
    if s.len() <= 1 {
        s[0]
    } else {
        let m = seq_min(s.drop_last());
        if s.last() < m {
            s.last()
        } else {
            m
        }
    }
}

/// The least element seen from the front.
proof fn lemma_seq_min_front(s: Seq<i64>)
    requires
        s.len() >= 2,
    ensures
        seq_min(s) == if s[0] < seq_min(s.drop_first()) {
            s[0]
        } else {
            seq_min(s.drop_first())
        },
    decreases s.len(),
{
    if s.len() == 2 {
        assert(s.drop_last() =~= seq![s[0]]);
        assert(s.drop_first() =~= seq![s[1]]);
        assert(seq_min(seq![s[0]]) == s[0]);
        assert(seq_min(seq![s[1]]) == s[1]);
    } else {
        lemma_seq_min_front(s.drop_last());
        assert(s.drop_last().drop_first() =~= s.drop_first().drop_last());
        assert(s.drop_first().last() == s.last());
        assert(s.drop_first().len() >= 2);
        assert(seq_min(s.drop_first()) == if s.drop_first().last() < seq_min(
            s.drop_first().drop_last(),
        ) {
            s.drop_first().last()
        } else {
            seq_min(s.drop_first().drop_last())
        });
        assert(seq_min(s) == if s.last() < seq_min(s.drop_last()) {
            s.last()
        } else {
            seq_min(s.drop_last())
        });
    }
}

/// The least element of a concatenation is the lesser of the two
/// least elements.
proof fn lemma_seq_min_concat(a: Seq<i64>, b: Seq<i64>)
    requires
        a.len() > 0,
        b.len() > 0,
    ensures
        seq_min(a + b) == if seq_min(a) < seq_min(b) {
            seq_min(a)
        } else {
            seq_min(b)
        },
    decreases b.len(),
{
    if b.len() == 1 {
        assert((a + b).drop_last() =~= a);
        assert((a + b).last() == b[0]);
    } else {
        lemma_seq_min_concat(a, b.drop_last());
        assert((a + b).drop_last() =~= a + b.drop_last());
        assert((a + b).last() == b.last());
    }
}

/// Reversing a sequence does not change its least element.
proof fn lemma_seq_min_reverse(s: Seq<i64>)
    requires
        s.len() > 0,
    ensures
        seq_min(s.reverse()) == seq_min(s),
    decreases s.len(),
{
    if s.len() > 1 {
        lemma_seq_min_reverse(s.drop_first());
        assert(s.reverse().drop_last() =~= s.drop_first().reverse());
        assert(s.reverse().last() == s[0]);
        lemma_seq_min_front(s);
    }
}

/// Moving the newest pending value onto the serving stack keeps both
/// stacks well-formed and the queue's contents unchanged.
proof fn lemma_transfer_step(a0: Seq<(i64, i64)>, r0: Seq<(i64, i64)>, curr: i64, new_min: i64)
    requires
        a0.len() > 0,
        curr == a0.last().0,
        mins_ok(a0),
        mins_ok(r0),
        new_min == if r0.len() > 0 {
            if curr < r0.last().1 {
                curr
            } else {
                r0.last().1
            }
        } else {
            curr
        },
    ensures
        mins_ok(a0.drop_last()),
        mins_ok(r0.push((curr, new_min))),
        stack_values(a0.drop_last()) + stack_values(r0.push((curr, new_min))).reverse()
            == stack_values(a0) + stack_values(r0).reverse(),
{
    let a1 = a0.drop_last();
    assert(mins_ok(a1)) by {
        assert forall|i: int| 0 <= i < a1.len() implies (#[trigger] a1[i]).1 == seq_min(
            stack_values(a1.take(i + 1)),
        ) by {
            assert(a1.take(i + 1) =~= a0.take(i + 1));
            assert(a1[i] == a0[i]);
        }
    }
    lemma_push_keeps_mins(r0, curr, new_min);
    assert(stack_values(r0.push((curr, new_min))).reverse() =~= seq![curr] + stack_values(
        r0,
    ).reverse());
    assert(stack_values(a1) + (seq![curr] + stack_values(r0).reverse()) =~= stack_values(a0)
        + stack_values(r0).reverse());
}

/// A first-in-first-out queue that also tracks its least element,
/// built from two stacks of (value, running minimum) pairs.
pub struct MinQueue {
    add_stack: Vec<(i64, i64)>,
    remove_stack: Vec<(i64, i64)>,
}

/// Each pair's second component is the least value at or below it.
pub open spec fn mins_ok(s: Seq<(i64, i64)>) -> bool {
    forall|i: int|
        0 <= i < s.len() ==> (#[trigger] s[i]).1 == seq_min(stack_values(s.take(i + 1)))
}

impl MinQueue {
    /// The stack that takes arriving values.
    pub closed spec fn spec_add(self) -> Seq<(i64, i64)> {
        self.add_stack@
    }

    /// The stack that serves departing values.
    pub closed spec fn spec_remove(self) -> Seq<(i64, i64)> {
        self.remove_stack@
    }

    /// The queued values, front first.
    pub open spec fn view(self) -> Seq<i64> {
        stack_values(self.spec_remove()).reverse() + stack_values(self.spec_add())
    }

    /// Both stacks track their running minimums.
    pub open spec fn wf(self) -> bool {
        mins_ok(self.spec_add()) && mins_ok(self.spec_remove())
    }

    /// An empty queue.
    pub fn new() -> (r: Self)
        ensures
            r.wf(),
            r.view() == Seq::<i64>::empty(),
    {
        let r = MinQueue { add_stack: Vec::new(), remove_stack: Vec::new() };
        proof {
            assert(r.view() =~= Seq::<i64>::empty());
        }
        r
    }

    /// Appends a value at the back of the queue.
    pub fn push(&mut self, val: i64)
        requires
            old(self).wf(),
            old(self).spec_add().len() + old(self).spec_remove().len() < usize::MAX,
        ensures
            final(self).wf(),
            final(self).view() == old(self).view().push(val),
    {
        let n = self.add_stack.len();
        let new_min: i64 = if n > 0 {
            let back = self.add_stack[n - 1].1;
            if val < back {
                val
            } else {
                back
            }
        } else {
            val
        };
        let ghost s0 = self.spec_add();
        self.add_stack.push((val, new_min));
        proof {
            lemma_push_keeps_mins(s0, val, new_min);
            assert(final(self).view() =~= old(self).view().push(val));
        }
    }

    /// Moves every pending value onto the serving stack, recomputing
    /// the running minimums in the reversed order.
    #[verifier::rlimit(100)]
    fn transfer_values(&mut self)
        requires
            old(self).wf(),
            old(self).spec_remove().len() == 0,
        ensures
            final(self).wf(),
            final(self).view() == old(self).view(),
            final(self).spec_add().len() == 0,
            final(self).spec_remove().len() == old(self).spec_add().len(),
    {
        proof {
            assert(stack_values(old(self).spec_remove()).reverse() =~= Seq::<i64>::empty());
            assert(stack_values(self.spec_add()) + stack_values(self.spec_remove()).reverse()
                =~= old(self).view());
        }
        while self.add_stack.len() > 0
            invariant
                mins_ok(self.spec_add()),
                mins_ok(self.spec_remove()),
                stack_values(self.spec_add()) + stack_values(self.spec_remove()).reverse()
                    == old(self).view(),
                self.spec_add().len() + self.spec_remove().len() == old(self).spec_add().len(),
            decreases self.spec_add().len(),
        {
            let ghost a0 = self.spec_add();
            let n = self.add_stack.len();
            let curr = self.add_stack[n - 1].0;
            self.add_stack.pop();
            let m = self.remove_stack.len();
            let new_min: i64 = if m > 0 {
                let back = self.remove_stack[m - 1].1;
                if curr < back {
                    curr
                } else {
                    back
                }
            } else {
                curr
            };
            let ghost r0 = self.spec_remove();
            self.remove_stack.push((curr, new_min));
            proof {
                lemma_transfer_step(a0, r0, curr, new_min);
            }
        }
        proof {
            assert(stack_values(self.spec_add()) =~= Seq::<i64>::empty());
            assert(self.view() =~= stack_values(self.spec_add()) + stack_values(
                self.spec_remove(),
            ).reverse());
        }
    }

    /// Removes and returns the front value, if the queue holds one.
    pub fn pop(&mut self) -> (r: Option<i64>)
        requires
            old(self).wf(),
        ensures
            final(self).wf(),
            match r {
                Some(v) => {
                    &&& old(self).view().len() > 0
                    &&& v == old(self).view()[0]
                    &&& final(self).view() == old(self).view().drop_first()
                },
                None => {
                    &&& old(self).view().len() == 0
                    &&& final(self).view() == old(self).view()
                },
            },
    {
        if self.remove_stack.len() == 0 {
            self.transfer_values();
        }
        let m = self.remove_stack.len();
        if m == 0 {
            proof {
                assert(old(self).view().len() == 0);
                assert(self.view() =~= old(self).view());
            }
            return None;
        }
        let removed = self.remove_stack[m - 1].0;
        let ghost r0 = self.spec_remove();
        self.remove_stack.pop();
        proof {
            assert(mins_ok(self.spec_remove())) by {
                assert forall|i: int| 0 <= i < r0.len() - 1 implies (
                #[trigger] self.spec_remove()[i]).1 == seq_min(
                    stack_values(self.spec_remove().take(i + 1)),
                ) by {
                    assert(self.spec_remove().take(i + 1) =~= r0.take(i + 1));
                    assert(self.spec_remove()[i] == r0[i]);
                }
            }
            assert(stack_values(r0).reverse()[0] == removed);
            assert(self.view() =~= old(self).view().drop_first());
        }
        Some(removed)
    }

    /// The front value, if the queue holds one.
    pub fn front(&self) -> (r: Option<&i64>)
        requires
            self.wf(),
        ensures
            match r {
                Some(v) => self.view().len() > 0 && *v == self.view()[0],
                None => self.view().len() == 0,
            },
    {
        let m = self.remove_stack.len();
        if m > 0 {
            proof {
                assert(stack_values(self.spec_remove()).reverse()[0] == self.spec_remove()[m
                    - 1].0);
            }
            Some(&self.remove_stack[m - 1].0)
        } else if self.add_stack.len() > 0 {
            proof {
                assert(self.view()[0] == stack_values(self.spec_add())[0]);
            }
            Some(&self.add_stack[0].0)
        } else {
            proof {
                assert(self.view() =~= Seq::<i64>::empty());
            }
            None
        }
    }

    /// The least queued value, if the queue holds one.
    pub fn min(&self) -> (r: Option<&i64>)
        requires
            self.wf(),
        ensures
            match r {
                Some(v) => self.view().len() > 0 && *v == seq_min(self.view()),
                None => self.view().len() == 0,
            },
    {
        let m = self.remove_stack.len();
        let n = self.add_stack.len();
        proof {
            if m > 0 {
                assert(self.spec_remove().take(m as int) =~= self.spec_remove());
            }
            if n > 0 {
                assert(self.spec_add().take(n as int) =~= self.spec_add());
            }
        }
        if m > 0 && n > 0 {
            proof {
                lemma_seq_min_reverse(stack_values(self.spec_remove()));
                lemma_seq_min_concat(
                    stack_values(self.spec_remove()).reverse(),
                    stack_values(self.spec_add()),
                );
            }
            if self.remove_stack[m - 1].1 < self.add_stack[n - 1].1 {
                Some(&self.remove_stack[m - 1].1)
            } else {
                Some(&self.add_stack[n - 1].1)
            }
        } else if m > 0 {
            proof {
                lemma_seq_min_reverse(stack_values(self.spec_remove()));
                assert(self.view() =~= stack_values(self.spec_remove()).reverse());
            }
            Some(&self.remove_stack[m - 1].1)
        } else if n > 0 {
            proof {
                assert(self.view() =~= stack_values(self.spec_add()));
            }
            Some(&self.add_stack[n - 1].1)
        } else {
            proof {
                assert(self.view() =~= Seq::<i64>::empty());
            }
            None
        }
    }

    /// The number of queued values.
    pub fn len(&self) -> (r: usize)
        requires
            self.view().len() <= usize::MAX,
        ensures
            r == self.view().len(),
    {
        self.add_stack.len() + self.remove_stack.len()
    }

    /// Whether the queue holds nothing.
    pub fn is_empty(&self) -> (r: bool)
        ensures
            r == (self.view().len() == 0),
    {
        self.add_stack.len() == 0 && self.remove_stack.len() == 0
    }
}

/// Pushing a pair whose minimum component is the lesser of the new
/// value and the previous minimum keeps the stack well-formed.
proof fn lemma_push_keeps_mins(s: Seq<(i64, i64)>, val: i64, new_min: i64)
    requires
        mins_ok(s),
        new_min == if s.len() > 0 {
            if val < s.last().1 {
                val
            } else {
                s.last().1
            }
        } else {
            val
        },
    ensures
        mins_ok(s.push((val, new_min))),
{
    let s1 = s.push((val, new_min));
    assert forall|i: int| 0 <= i < s1.len() implies (#[trigger] s1[i]).1 == seq_min(
        stack_values(s1.take(i + 1)),
    ) by {
        if i < s.len() {
            assert(s1.take(i + 1) =~= s.take(i + 1));
            assert(s1[i] == s[i]);
        } else {
            assert(s1.take(i + 1) =~= s1);
            assert(stack_values(s1).drop_last() =~= stack_values(s));
            if s.len() > 0 {
                assert(s.take(s.len() as int) =~= s);
                assert(s.last().1 == seq_min(stack_values(s)));
                assert(stack_values(s1).last() == val);
            }
        }
    }
}

} // verus!

use vstd::prelude::*;

use crate::error::{LispError, LispResult};
use crate::sexpr::{SExpr, Val};

verus! {

/// One scope frame: names bound to values. Where a name occurs twice, the later entry counts.
pub type Frame = Seq<(Seq<char>, Val)>;

/// The index of the entry of `f` that binds `k`, or -1.
pub open spec fn frame_index(f: Frame, k: Seq<char>) -> int
    decreases f.len(),
{
    if f.len() == 0 {
        -1
    } else if f.last().0 == k {
        f.len() - 1
    } else {
        frame_index(f.drop_last(), k)
    }
}

/// The index of the innermost frame of `env` that binds `k`, or -1.
pub open spec fn env_index(env: Seq<Frame>, k: Seq<char>) -> int
    decreases env.len(),
{
    if env.len() == 0 {
        -1
    } else if frame_index(env.last(), k) >= 0 {
        env.len() - 1
    } else {
        env_index(env.drop_last(), k)
    }
}

/// The value that `k` is bound to, innermost frame first.
pub open spec fn lookup(env: Seq<Frame>, k: Seq<char>) -> Option<Val> {
    let i = env_index(env, k);
    if i >= 0 {
        Some(env[i][frame_index(env[i], k)].1)
    } else {
        None
    }
}

/// The environment once the binding of `k` that `lookup` finds holds `v`.
pub open spec fn rebind(env: Seq<Frame>, k: Seq<char>, v: Val) -> Seq<Frame> {
    let i = env_index(env, k);
    env.update(i, env[i].update(frame_index(env[i], k), (k, v)))
}

pub open spec fn frame_view(f: Seq<(String, SExpr)>) -> Frame {
    Seq::new(f.len(), |j: int| (f[j].0@, f[j].1@))
}

/// The message of a failed lookup.
pub open spec fn unbound_msg(k: Seq<char>) -> Seq<char> {
    "failed to retrieve symbol '"@ + k + "'"@
}

/// The message of a failed assignment.
pub open spec fn unset_msg(k: Seq<char>) -> Seq<char> {
    "failed to set symbol '"@ + k + "'"@
}

/// The message of a pop that would remove the root frame.
pub open spec fn root_pop_msg() -> Seq<char> {
    "attempted to pop the root frame"@
}

proof fn lemma_frame_index(f: Frame, k: Seq<char>)
    ensures
        -1 <= frame_index(f, k) < f.len(),
        frame_index(f, k) >= 0 ==> f[frame_index(f, k)].0 == k,
    decreases f.len(),
{
    if f.len() > 0 {
        lemma_frame_index(f.drop_last(), k);
    }
}

/// A stack of scope frames; the first one is the root, which is never removed.
pub struct EvalContext {
    scopes: Vec<Vec<(String, SExpr)>>,
}

impl View for EvalContext {
    type V = Seq<Frame>;

    closed spec fn view(&self) -> Seq<Frame> {
        Seq::new(self.scopes@.len(), |i: int| frame_view(self.scopes@[i]@))
    }
}

impl EvalContext {
    /// An environment holding only an empty root frame.
    pub fn new() -> (r: EvalContext)
        ensures
            r@ == seq![Seq::<(Seq<char>, Val)>::empty()],
    {
        let mut scopes: Vec<Vec<(String, SExpr)>> = Vec::new();
        scopes.push(Vec::new());
        let r = EvalContext { scopes };
        assert(r@[0] =~= Seq::<(Seq<char>, Val)>::empty());
        assert(r@ =~= seq![Seq::<(Seq<char>, Val)>::empty()]);
        r
    }

    /// Where `name` is bound, the frame and entry that hold the innermost binding.
    fn find(&self, name: &str) -> (r: Option<(usize, usize)>)
        ensures
            match r {
                Some((i, j)) => i == env_index(self@, name@) && j == frame_index(
                    self@[i as int],
                    name@,
                ) && i < self.scopes@.len() && j < self.scopes@[i as int]@.len(),
                None => env_index(self@, name@) < 0,
            },
    {
        let ghost env = self@;
        let mut i: usize = self.scopes.len();
        assert(env.subrange(0, i as int) =~= env);
        while i > 0
            invariant
                i <= self.scopes@.len(),
                env == self@,
                env_index(env, name@) == env_index(env.subrange(0, i as int), name@),
            decreases i,
        {
            let frame = &self.scopes[i - 1];
            let ghost f = env[i - 1];
            assert(f == frame_view(frame@));
            let mut j: usize = frame.len();
            assert(f.subrange(0, j as int) =~= f);
            while j > 0
                invariant
                    j <= frame@.len(),
                    0 < i <= self.scopes@.len(),
                    env == self@,
                    f == env[i - 1],
                    frame@ == self.scopes@[i - 1]@,
                    env_index(env, name@) == env_index(env.subrange(0, i as int), name@),
                    f == frame_view(frame@),
                    frame_index(f, name@) == frame_index(f.subrange(0, j as int), name@),
                decreases j,
            {
                if crate::text::text_eq(frame[j - 1].0.as_str(), name) {
                    assert(f.subrange(0, j as int).last() == f[j - 1]);
                    assert(frame_index(f, name@) == j - 1);
                    assert(env.subrange(0, i as int).last() == f);
                    return Some((i - 1, j - 1));
                }
                assert(f.subrange(0, j as int).drop_last() =~= f.subrange(0, j - 1));
                j = j - 1;
            }
            assert(env.subrange(0, i as int).last() == f);
            assert(env.subrange(0, i as int).drop_last() =~= env.subrange(0, i - 1));
            i = i - 1;
        }
        None
    }

    /// The value bound to `name`, innermost frame first.
    pub fn get<'a>(&'a self, name: &str) -> (r: LispResult<&'a SExpr>)
        ensures
            match lookup(self@, name@) {
                Some(v) => r matches Ok(e) && e@ == v,
                None => r matches Err(e) && e@ == unbound_msg(name@),
            },
    {
        match self.find(name) {
            Some((i, j)) => Ok(&self.scopes[i][j].1),
            None => Err(LispError::framed("failed to retrieve symbol '", name, "'")),
        }
    }

    /// Replaces the value of the innermost binding of `name`; never creates a binding.
    pub fn set(&mut self, name: &str, value: SExpr) -> (r: LispResult<SExpr>)
        ensures
            match lookup(old(self)@, name@) {
                Some(_) => r matches Ok(e) && e@ == value@ && final(self)@ == rebind(
                    old(self)@,
                    name@,
                    value@,
                ),
                None => r matches Err(e) && e@ == unset_msg(name@) && final(self)@ == old(
                    self,
                )@,
            },
    {
        match self.find(name) {
            Some((i, j)) => {
                let ghost env = self@;
                let copy = value.copy();
                let mut frame = self.scopes.remove(i);
                let key = frame[j].0.clone();
                frame.set(j, (key, value));
                self.scopes.insert(i, frame);
                proof {
                    lemma_frame_index(env[i as int], name@);
                    assert(self@[i as int] =~= rebind(env, name@, copy@)[i as int]);
                    assert(self@ =~= rebind(env, name@, copy@));
                }
                Ok(copy)
            },
            None => Err(LispError::framed("failed to set symbol '", name, "'")),
        }
    }

    /// Adds a new innermost frame.
    pub fn push(&mut self, frame: Vec<(String, SExpr)>) -> (r: LispResult<()>)
        ensures
            r is Ok,
            final(self)@ == old(self)@.push(frame_view(frame@)),
    {
        self.scopes.push(frame);
        assert(self@ =~= old(self)@.push(frame_view(frame@)));
        Ok(())
    }

    /// Removes the innermost frame; fails where only the root frame is left.
    pub fn pop(&mut self) -> (r: LispResult<()>)
        ensures
            old(self)@.len() > 1 ==> r is Ok && final(self)@ == old(self)@.drop_last(),
            old(self)@.len() <= 1 ==> (r matches Err(e) && e@ == root_pop_msg()) && final(self)@
                == old(self)@,
    {
        if self.scopes.len() <= 1 {
            return Err(LispError::new("attempted to pop the root frame"));
        }
        let _ = self.scopes.pop();
        assert(self@ =~= old(self)@.drop_last());
        Ok(())
    }

    /// How many frames the stack holds.
    pub fn depth(&self) -> (r: usize)
        ensures
            r == self@.len(),
    {
        self.scopes.len()
    }

    /// Removes the frame at `index`, keeping those above it.
    pub fn remove_frame(&mut self, index: usize)
        requires
            index < old(self)@.len(),
        ensures
            final(self)@ == old(self)@.remove(index as int),
    {
        let _ = self.scopes.remove(index);
        assert(self@ =~= old(self)@.remove(index as int));
    }
}

} // verus!

//! The session store: the durable mapping from token to live session.
//! It is the sole authority for creating, updating and deleting
//! sessions; its state is modelled as the set of tokens that currently
//! have a live session, with at most one live session per token.

use vstd::prelude::*;

use crate::protocol::Session;
use crate::protocol::SessionV;

verus! {

/// A failure of the session store. The taxonomy does not distinguish
/// "no such session" from other failures; the handler maps every one
/// of these to the wire error `Database`.
#[derive(Debug, Clone, Copy, PartialEq, Eq, Structural)]
pub struct StoreError;

/// What creating a session does to the store's token set, and whether
/// it succeeds: a session is created unless the token already has one.
pub open spec fn spec_create(tokens: Set<Seq<char>>, t: Seq<char>) -> (Set<Seq<char>>, bool) {
    if tokens.contains(t) {
        (tokens, false)
    } else {
        (tokens.insert(t), true)
    }
}

/// What renewing a session does: the old token's session atomically
/// carries over to the new token. It fails when the old token has no
/// live session, or the new token is already held by another session.
pub open spec fn spec_update(tokens: Set<Seq<char>>, old_t: Seq<char>, new_t: Seq<char>) -> (
    Set<Seq<char>>,
    bool,
) {
    if tokens.contains(old_t) && (new_t == old_t || !tokens.contains(new_t)) {
        (tokens.remove(old_t).insert(new_t), true)
    } else {
        (tokens, false)
    }
}

/// What deleting a session does: the token's session is destroyed; it
/// fails when the token has no live session.
pub open spec fn spec_delete(tokens: Set<Seq<char>>, t: Seq<char>) -> (Set<Seq<char>>, bool) {
    if tokens.contains(t) {
        (tokens.remove(t), true)
    } else {
        (tokens, false)
    }
}

/// An in-memory session store.
pub struct SessionStore {
    tokens: Vec<String>,
}

impl View for SessionStore {
    type V = Set<Seq<char>>;

    closed spec fn view(&self) -> Set<Seq<char>> {
        Set::new(
            |t: Seq<char>| exists|i: int| 0 <= i < self.tokens@.len() && self.tokens@[i]@ == t,
        )
    }
}

impl SessionStore {
    /// At most one live session per token.
    #[verifier::type_invariant]
    spec fn wf(&self) -> bool {
        forall|i: int, j: int|
            0 <= i < j < self.tokens@.len() ==> self.tokens@[i]@ != self.tokens@[j]@
    }

    /// A store with no live session.
    pub fn new() -> (store: SessionStore)
        ensures
            store@ == Set::<Seq<char>>::empty(),
    {
        let store = SessionStore { tokens: Vec::new() };
        proof {
            assert(store@ =~= Set::<Seq<char>>::empty());
        }
        store
    }

    fn find(&self, token: &String) -> (r: Option<usize>)
        ensures
            r matches Some(i) ==> i < self.tokens@.len() && self.tokens@[i as int]@ == token@
                && self@.contains(token@),
            r is None ==> !self@.contains(token@),
    {
        let n = self.tokens.len();
        let mut i: usize = 0;
        while i < n
            invariant
                n == self.tokens@.len(),
                i <= n,
                forall|j: int| 0 <= j < i ==> self.tokens@[j]@ != token@,
            decreases n - i,
        {
            if self.tokens[i] == *token {
                return Some(i);
            }
            i = i + 1;
        }
        proof {
            if self@.contains(token@) {
                let j = choose|j: int|
                    0 <= j < self.tokens@.len() && self.tokens@[j]@ == token@;
                assert(false);
            }
        }
        None
    }

    /// Whether `token` currently has a live session.
    pub fn contains(&self, token: &String) -> (b: bool)
        ensures
            b == self@.contains(token@),
    {
        match self.find(token) {
            Some(_) => true,
            None => false,
        }
    }

    /// Creates a session for `token`.
    pub fn create(&mut self, token: String) -> (r: Result<Session, StoreError>)
        ensures
            ({
                let (tokens2, ok) = spec_create(old(self)@, token@);
                &&& final(self)@ == tokens2
                &&& ok ==> (r matches Ok(s) && s@ == (SessionV { token: token@ }))
                &&& !ok ==> r is Err
            }),
    {
        proof {
            use_type_invariant(&*self);
        }
        match self.find(&token) {
            Some(_) => Err(StoreError),
            None => {
                let ghost tokview = token@;
                let session = Session { token: token.clone() };
                let ghost oldv = self@;
                let ghost oldseq = self.tokens@;
                let mut v: Vec<String> = Vec::new();
                core::mem::swap(&mut v, &mut self.tokens);
                v.push(token);
                proof {
                    assert forall|a: int, b: int| 0 <= a < b < v@.len() implies v@[a]@ != v@[b]@ by {
                        if b == v@.len() - 1 {
                            if v@[a]@ == tokview {
                                assert(oldv.contains(tokview));
                            }
                        }
                    }
                }
                self.tokens = v;
                proof {
                    assert forall|t: Seq<char>|
                        self@.contains(t) == oldv.insert(tokview).contains(t) by {
                        if self@.contains(t) {
                            let i = choose|i: int|
                                0 <= i < self.tokens@.len() && self.tokens@[i]@ == t;
                            if i < self.tokens@.len() - 1 {
                                assert(oldseq[i]@ == t);
                                assert(oldv.contains(t));
                            }
                        }
                        if oldv.insert(tokview).contains(t) {
                            if t == tokview {
                                assert(self.tokens@[self.tokens@.len() - 1]@ == t);
                            } else {
                                let i = choose|i: int|
                                    0 <= i < oldseq.len() && oldseq[i]@ == t;
                                assert(self.tokens@[i as int]@ == t);
                            }
                        }
                    }
                    assert(self@ =~= oldv.insert(tokview));
                }
                Ok(session)
            },
        }
    }

    /// Replaces `old_token` by `new_token` on its session.
    pub fn update(&mut self, old_token: &String, new_token: String) -> (r: Result<
        Session,
        StoreError,
    >)
        ensures
            ({
                let (tokens2, ok) = spec_update(old(self)@, old_token@, new_token@);
                &&& final(self)@ == tokens2
                &&& ok ==> (r matches Ok(s) && s@ == (SessionV { token: new_token@ }))
                &&& !ok ==> r is Err
            }),
    {
        proof {
            use_type_invariant(&*self);
        }
        match self.find(old_token) {
            None => Err(StoreError),
            Some(i) => {
                if *old_token == new_token {
                    proof {
                        assert(old(self)@.remove(old_token@).insert(new_token@) =~= old(self)@);
                    }
                    Ok(Session { token: new_token })
                } else {
                    match self.find(&new_token) {
                        Some(_) => Err(StoreError),
                        None => {
                            let ghost newtok = new_token@;
                            let ghost oldt = old_token@;
                            let session = Session { token: new_token.clone() };
                            let ghost oldv = self@;
                            let ghost oldseq = self.tokens@;
                            let mut v: Vec<String> = Vec::new();
                            core::mem::swap(&mut v, &mut self.tokens);
                            let _ = v.swap_remove(i);
                            let ghost midseq = v@;
                            v.push(new_token);
                            proof {
                                assert forall|a: int, b: int|
                                    0 <= a < b < v@.len() implies v@[a]@ != v@[b]@ by {
                                    if b < v@.len() - 1 {
                                        assert(v@[a] == oldseq[if a == i {
                                            oldseq.len() - 1
                                        } else {
                                            a
                                        }]);
                                        assert(v@[b] == oldseq[if b == i {
                                            oldseq.len() - 1
                                        } else {
                                            b
                                        }]);
                                    } else {
                                        if a < midseq.len() {
                                            let p = if a == i { oldseq.len() - 1 } else { a };
                                            assert(v@[a] == oldseq[p]);
                                            if v@[a]@ == newtok {
                                                assert(oldv.contains(newtok));
                                            }
                                        }
                                    }
                                }
                            }
                            self.tokens = v;
                            proof {
                                let target = oldv.remove(oldt).insert(newtok);
                                assert forall|t: Seq<char>|
                                    self@.contains(t) == target.contains(t) by {
                                    if self@.contains(t) {
                                        let j = choose|j: int|
                                            0 <= j < self.tokens@.len() && self.tokens@[j]@ == t;
                                        if j < midseq.len() {
                                            let p = if j == i { oldseq.len() - 1 } else { j };
                                            assert(self.tokens@[j] == oldseq[p]);
                                            assert(oldv.contains(t));
                                            assert(p != i);
                                            assert(t != oldt);
                                        }
                                    }
                                    if target.contains(t) {
                                        if t == newtok {
                                            assert(self.tokens@[self.tokens@.len() - 1]@ == t);
                                        } else {
                                            let k = choose|k: int|
                                                0 <= k < oldseq.len() && oldseq[k]@ == t;
                                            assert(k != i);
                                            if k < oldseq.len() - 1 {
                                                assert(self.tokens@[k]@ == t);
                                            } else {
                                                assert(i < oldseq.len() - 1);
                                                assert(self.tokens@[i as int]@ == t);
                                            }
                                        }
                                    }
                                }
                                assert(self@ =~= target);
                            }
                            Ok(session)
                        },
                    }
                }
            },
        }
    }

    /// Destroys the session that `token` names.
    pub fn delete(&mut self, token: &String) -> (r: Result<(), StoreError>)
        ensures
            ({
                let (tokens2, ok) = spec_delete(old(self)@, token@);
                &&& final(self)@ == tokens2
                &&& r is Ok <==> ok
            }),
    {
        proof {
            use_type_invariant(&*self);
        }
        match self.find(token) {
            None => Err(StoreError),
            Some(i) => {
                let ghost oldv = self@;
                let ghost oldseq = self.tokens@;
                let mut v: Vec<String> = Vec::new();
                core::mem::swap(&mut v, &mut self.tokens);
                let _ = v.swap_remove(i);
                proof {
                    assert forall|a: int, b: int| 0 <= a < b < v@.len() implies v@[a]@ != v@[b]@ by {
                        assert(v@[a] == oldseq[if a == i {
                            oldseq.len() - 1
                        } else {
                            a
                        }]);
                        assert(v@[b] == oldseq[if b == i {
                            oldseq.len() - 1
                        } else {
                            b
                        }]);
                    }
                }
                self.tokens = v;
                proof {
                    let target = oldv.remove(token@);
                    assert forall|t: Seq<char>| self@.contains(t) == target.contains(t) by {
                        if self@.contains(t) {
                            let j = choose|j: int|
                                0 <= j < self.tokens@.len() && self.tokens@[j]@ == t;
                            let p = if j == i { oldseq.len() - 1 } else { j };
                            assert(self.tokens@[j] == oldseq[p]);
                            assert(oldv.contains(t));
                            assert(p != i);
                            assert(t != token@);
                        }
                        if target.contains(t) {
                            let k = choose|k: int| 0 <= k < oldseq.len() && oldseq[k]@ == t;
                            assert(k != i);
                            if k < oldseq.len() - 1 {
                                assert(self.tokens@[k]@ == t);
                            } else {
                                assert(i < oldseq.len() - 1);
                                assert(self.tokens@[i as int]@ == t);
                            }
                        }
                    }
                    assert(self@ =~= target);
                }
                Ok(())
            },
        }
    }
}

} // verus!

//! Participant roster of a listening room, with at most one DJ at a time.

use vstd::prelude::*;

verus! {

/// Who is in the room and who currently acts as DJ.
pub struct RoomState {
    pub participants: Vec<String>,
    pub dj: Option<String>,
}

/// The sequence `s` with every occurrence of the name `n` removed,
/// keeping the order of the rest.
pub open spec fn remove_name(s: Seq<Seq<char>>, n: Seq<char>) -> Seq<Seq<char>>
    decreases s.len(),
{
    if s.len() == 0 {
        s
    } else if s.last() == n {
        remove_name(s.drop_last(), n)
    } else {
        remove_name(s.drop_last(), n).push(s.last())
    }
}

impl RoomState {
    /// The names of the participants, in join order.
    pub open spec fn names(&self) -> Seq<Seq<char>> {
        self.participants.deep_view()
    }

    /// The current DJ's name, if one is set.
    pub open spec fn dj_name(&self) -> Option<Seq<char>> {
        match self.dj {
            Some(ref d) => Some(d@),
            None => None,
        }
    }

    pub fn new() -> (r: RoomState)
        ensures
            r.names() == Seq::<Seq<char>>::empty(),
            r.dj_name() is None,
    {
        let r = RoomState { participants: Vec::new(), dj: None };
        proof {
            assert(r.names() =~= Seq::<Seq<char>>::empty());
        }
        r
    }

    /// Whether some participant has this name.
    pub fn contains_name(&self, name: &String) -> (r: bool)
        ensures
            r == self.names().contains(name@),
    {
        let mut i: usize = 0;
        while i < self.participants.len()
            invariant
                i <= self.participants.len(),
                forall|j: int| 0 <= j < i ==> self.names()[j] != name@,
            decreases self.participants.len() - i,
        {
            if self.participants[i].eq(name) {
                assert(self.names()[i as int] == name@);
                return true;
            }
            i = i + 1;
        }
        assert(forall|j: int| 0 <= j < self.names().len() ==> self.names()[j] != name@);
        false
    }

    /// Add a participant; joining twice under one name has no further effect.
    pub fn join(&mut self, name: String)
        ensures
            old(self).names().contains(name@) ==> final(self).names() == old(self).names(),
            !old(self).names().contains(name@) ==> final(self).names() == old(self).names().push(
                name@,
            ),
            final(self).dj_name() == old(self).dj_name(),
    {
        if !self.contains_name(&name) {
            self.participants.push(name);
            proof {
                assert(self.names() =~= old(self).names().push(name@));
            }
        }
    }

    /// Remove a participant; a leaving DJ stops being DJ.
    pub fn leave(&mut self, name: &str)
        ensures
            final(self).names() == remove_name(old(self).names(), name@),
            final(self).dj_name() == if old(self).dj_name() == Some(name@) {
                None::<Seq<char>>
            } else {
                old(self).dj_name()
            },
    {
        let n = String::from_str(name);
        let mut kept: Vec<String> = Vec::new();
        let mut i: usize = 0;
        while i < self.participants.len()
            invariant
                i <= self.participants.len(),
                n@ == name@,
                kept.deep_view() == remove_name(self.names().subrange(0, i as int), name@),
            decreases self.participants.len() - i,
        {
            proof {
                assert(self.names().subrange(0, i as int + 1).drop_last() =~= self.names().subrange(
                    0,
                    i as int,
                ));
                assert(self.names().subrange(0, i as int + 1).last() == self.names()[i as int]);
            }
            if !self.participants[i].eq(&n) {
                let ghost prev = kept.deep_view();
                kept.push(self.participants[i].clone());
                proof {
                    assert(kept.deep_view() =~= prev.push(self.names()[i as int]));
                }
            }
            i = i + 1;
        }
        proof {
            assert(self.names().subrange(0, self.names().len() as int) =~= self.names());
        }
        self.participants = kept;
        let clear_dj = match &self.dj {
            Some(d) => d.eq(&n),
            None => false,
        };
        if clear_dj {
            self.dj = None;
        }
    }

    /// The participants, in join order.
    pub fn participants(&self) -> (r: &[String])
        ensures
            r@ == self.participants@,
    {
        self.participants.as_slice()
    }

    /// Only a participant may become DJ; the new DJ replaces any old one.
    pub fn become_dj(&mut self, name: String) -> (r: Result<(), String>)
        ensures
            old(self).names().contains(name@) ==> r is Ok && final(self).dj_name() == Some(name@),
            !old(self).names().contains(name@) ==> r is Err && r->Err_0@
                == "Must be in the room to become DJ"@ && *final(self) == *old(self),
            final(self).names() == old(self).names(),
    {
        if !self.contains_name(&name) {
            return Err(String::from_str("Must be in the room to become DJ"));
        }
        self.dj = Some(name);
        Ok(())
    }

    /// Stepping down only works for the DJ themself.
    pub fn stop_dj(&mut self, name: &str)
        ensures
            final(self).names() == old(self).names(),
            final(self).dj_name() == if old(self).dj_name() == Some(name@) {
                None::<Seq<char>>
            } else {
                old(self).dj_name()
            },
    {
        let n = String::from_str(name);
        let clear_dj = match &self.dj {
            Some(d) => d.eq(&n),
            None => false,
        };
        if clear_dj {
            self.dj = None;
        }
    }

    pub fn current_dj(&self) -> (r: Option<&str>)
        ensures
            match r {
                Some(d) => self.dj_name() == Some(d@),
                None => self.dj_name() is None,
            },
    {
        match &self.dj {
            Some(d) => Some(d.as_str()),
            None => None,
        }
    }
}

} // verus!

//! Per-group, per-epoch DKG coordinator: the protocol clock over four
//! phase windows and three append-once bulletin boards (shares, responses,
//! justifications), one slot per participant.
//!
//! Member indices are 0-based throughout the library; the participant list is
//! kept in member-index order.

use vstd::prelude::*;

use crate::errors::{CoordinatorError, CoordinatorResult};

verus! {

/// Default number of blocks each DKG phase window lasts.
pub const DEFAULT_DKG_PHASE_DURATION: usize = 30;

/// One registered DKG participant: identity address, member index inside the
/// group, and identity public key.
pub struct Participant {
    pub id_address: String,
    pub index: usize,
    pub id_public_key: Vec<u8>,
}

pub struct Coordinator {
    pub epoch: usize,
    pub threshold: usize,
    pub phase_duration: usize,
    pub started: bool,
    pub start_block_height: usize,
    pub block_height: usize,
    pub participants: Vec<String>,
    pub keys: Vec<Vec<u8>>,
    pub shares: Vec<Option<Vec<u8>>>,
    pub responses: Vec<Option<Vec<u8>>>,
    pub justifications: Vec<Option<Vec<u8>>>,
}

impl Coordinator {
    /// Structural well-formedness: the key list and the three boards run
    /// parallel to the participant list, participants are distinct, and the
    /// clock never runs backwards past its start.
    pub open spec fn wf(self) -> bool {
        &&& self.keys.len() == self.participants.len()
        &&& self.shares.len() == self.participants.len()
        &&& self.responses.len() == self.participants.len()
        &&& self.justifications.len() == self.participants.len()
        &&& self.started ==> self.start_block_height <= self.block_height
        &&& forall|i: int, j: int|
            0 <= i < j < self.participants@.len()
                ==> self.participants@[i]@ != self.participants@[j]@
    }

    /// The protocol clock: 0 before `start`; 1, 2, 3 during the share,
    /// response and justification windows; 4 during the closing window in
    /// which members commit their outputs; 5 once all four windows have
    /// elapsed (the coordinator is then dead).
    pub open spec fn spec_phase(self) -> int {
        if !self.started {
            0
        } else {
            let d = self.block_height - self.start_block_height;
            if d < self.phase_duration {
                1
            } else if d < 2 * self.phase_duration {
                2
            } else if d < 3 * self.phase_duration {
                3
            } else if d < 4 * self.phase_duration {
                4
            } else {
                5
            }
        }
    }

    pub open spec fn is_participant(self, id: Seq<char>) -> bool {
        exists|i: int| 0 <= i < self.participants@.len() && self.participants@[i]@ == id
    }

    /// The position of a registered participant (meaningful under `wf` and
    /// `is_participant`).
    pub open spec fn participant_idx(self, id: Seq<char>) -> int {
        choose|i: int| 0 <= i < self.participants@.len() && self.participants@[i]@ == id
    }

    pub fn new(epoch: usize, threshold: usize, phase_duration: usize) -> (r: Coordinator)
        ensures
            r.wf(),
            !r.started,
            r.epoch == epoch,
            r.threshold == threshold,
            r.phase_duration == phase_duration,
            r.spec_phase() == 0,
            r.participants@.len() == 0,
    {
        Coordinator {
            epoch,
            threshold,
            phase_duration,
            started: false,
            start_block_height: 0,
            block_height: 0,
            participants: Vec::new(),
            keys: Vec::new(),
            shares: Vec::new(),
            responses: Vec::new(),
            justifications: Vec::new(),
        }
    }

    /// One-shot start of the protocol clock with the ordered participant
    /// list; fails with `AlreadyStarted` on a second call.
    pub fn start(&mut self, block_height: usize, members: Vec<Participant>) -> (r:
        CoordinatorResult<()>)
        requires
            old(self).wf(),
            forall|i: int, j: int|
                0 <= i < j < members@.len() ==> members@[i].id_address@ != members@[j].id_address@,
        ensures
            final(self).wf(),
            old(self).started ==> r == CoordinatorResult::<()>::Err(
                CoordinatorError::AlreadyStarted,
            ) && *final(self) == *old(self),
            !old(self).started ==> {
                &&& r is Ok
                &&& final(self).started
                &&& final(self).epoch == old(self).epoch
                &&& final(self).threshold == old(self).threshold
                &&& final(self).phase_duration == old(self).phase_duration
                &&& final(self).start_block_height == block_height
                &&& final(self).block_height == block_height
                &&& final(self).participants@.len() == members@.len()
                &&& forall|i: int|
                    0 <= i < members@.len() ==> final(self).participants@[i]@
                        == members@[i].id_address@
                &&& forall|i: int|
                    0 <= i < members@.len() ==> final(self).keys@[i]@
                        == members@[i].id_public_key@
                &&& forall|i: int| 0 <= i < members@.len() ==> final(self).shares@[i] is None
                &&& forall|i: int| 0 <= i < members@.len() ==> final(self).responses@[i] is None
                &&& forall|i: int|
                    0 <= i < members@.len() ==> final(self).justifications@[i] is None
                &&& final(self).spec_phase() == 1 || (final(self).phase_duration == 0 && final(self).spec_phase() == 5)
            },
    {
        if self.started {
            return Err(CoordinatorError::AlreadyStarted);
        }
        self.started = true;
        self.start_block_height = block_height;
        self.block_height = block_height;
        self.participants = Vec::new();
        self.keys = Vec::new();
        self.shares = Vec::new();
        self.responses = Vec::new();
        self.justifications = Vec::new();
        let mut m = members;
        let ghost members_view = m@;
        let mut i: usize = 0;
        proof {
            assert(members_view.len() == m.len());
            assert(m@ =~= members_view.subrange(0, members_view.len() as int));
        }
        while m.len() > 0
            invariant
                members_view.len() <= usize::MAX,
                i + m@.len() == members_view.len(),
                m@ =~= members_view.subrange(i as int, members_view.len() as int),
                self.participants@.len() == i,
                self.keys@.len() == i,
                self.shares@.len() == i,
                self.responses@.len() == i,
                self.justifications@.len() == i,
                forall|k: int| 0 <= k < i ==> self.participants@[k]@ == members_view[k].id_address@,
                forall|k: int| 0 <= k < i ==> self.keys@[k]@ == members_view[k].id_public_key@,
                forall|k: int| 0 <= k < i ==> self.shares@[k] is None,
                forall|k: int| 0 <= k < i ==> self.responses@[k] is None,
                forall|k: int| 0 <= k < i ==> self.justifications@[k] is None,
                forall|a: int, b: int|
                    0 <= a < b < members_view.len()
                        ==> members_view[a].id_address@ != members_view[b].id_address@,
                self.started,
                self.start_block_height == block_height,
                self.block_height == block_height,
                self.epoch == old(self).epoch,
                self.threshold == old(self).threshold,
                self.phase_duration == old(self).phase_duration,
            decreases m.len(),
        {
            proof {
                assert(members_view.subrange(i as int, members_view.len() as int)[0]
                    == members_view[i as int]);
            }
            let participant = m.remove(0);
            self.participants.push(participant.id_address);
            self.keys.push(participant.id_public_key);
            self.shares.push(None);
            self.responses.push(None);
            self.justifications.push(None);
            proof {
                assert(m@ =~= members_view.subrange(i + 1 as int, members_view.len() as int));
            }
            i = i + 1;
        }
        Ok(())
    }

    /// Advance the protocol clock.
    pub fn mine(&mut self, block_number: usize)
        requires
            old(self).wf(),
        ensures
            final(self).wf(),
            final(self).block_height == old(self).block_height.saturating_add(block_number),
            (*final(self) == Coordinator {
                block_height: final(self).block_height,
                ..*old(self)
            }),
    {
        self.block_height = self.block_height.saturating_add(block_number);
    }

    /// The current phase, or `DKGEnded` once the protocol clock has run out.
    pub fn in_phase(&self) -> (r: CoordinatorResult<usize>)
        requires
            self.wf(),
        ensures
            self.spec_phase() <= 4 ==> r == CoordinatorResult::<usize>::Ok(
                self.spec_phase() as usize,
            ),
            self.spec_phase() == 5 ==> r == CoordinatorResult::<usize>::Err(
                CoordinatorError::DKGEnded,
            ),
    {
        if !self.started {
            return Ok(0);
        }
        let d = self.block_height - self.start_block_height;
        if d < self.phase_duration {
            Ok(1)
        } else if d - self.phase_duration < self.phase_duration {
            Ok(2)
        } else if d - self.phase_duration - self.phase_duration < self.phase_duration {
            Ok(3)
        } else if d - self.phase_duration - self.phase_duration - self.phase_duration
            < self.phase_duration {
            Ok(4)
        } else {
            Err(CoordinatorError::DKGEnded)
        }
    }

    fn find_participant(&self, id_address: &String) -> (r: Option<usize>)
        ensures
            match r {
                Some(i) => 0 <= i < self.participants@.len() && self.participants@[i as int]@
                    == id_address@,
                None => !self.is_participant(id_address@),
            },
    {
        let mut i: usize = 0;
        while i < self.participants.len()
            invariant
                i <= self.participants@.len(),
                forall|k: int| 0 <= k < i ==> self.participants@[k]@ != id_address@,
            decreases self.participants@.len() - i,
        {
            if *id_address == self.participants[i] {
                return Some(i);
            }
            i = i + 1;
        }
        None
    }

    /// Append-once publication into the board selected by the current phase.
    pub fn publish(&mut self, id_address: &String, value: Vec<u8>) -> (r: CoordinatorResult<()>)
        requires
            old(self).wf(),
        ensures
            final(self).wf(),
            final(self).participants@ == old(self).participants@,
            final(self).keys@ == old(self).keys@,
            final(self).spec_phase() == old(self).spec_phase(),
            final(self).epoch == old(self).epoch,
            final(self).threshold == old(self).threshold,
            !old(self).is_participant(id_address@) ==> r == CoordinatorResult::<()>::Err(
                CoordinatorError::NotRegistered,
            ) && *final(self) == *old(self),
            old(self).is_participant(id_address@) && !(1 <= old(self).spec_phase() <= 3) ==> r
                == CoordinatorResult::<()>::Err(CoordinatorError::DKGEnded) && *final(self) == *old(self),
            r is Ok ==> {
                &&& old(self).is_participant(id_address@)
                &&& 1 <= old(self).spec_phase() <= 3
                &&& exists|i: int|
                    {
                        &&& 0 <= i < old(self).participants@.len()
                        &&& old(self).participants@[i]@ == id_address@
                        &&& (if old(self).spec_phase() == 1 {
                            old(self).shares@[i] is None && final(self).shares@ == old(self).shares@.update(i, Some(value)) && final(self).responses@ == old(self).responses@ && final(self).justifications@ == old(self).justifications@
                        } else if old(self).spec_phase() == 2 {
                            old(self).responses@[i] is None && final(self).responses@ == old(self).responses@.update(i, Some(value)) && final(self).shares@ == old(self).shares@ && final(self).justifications@ == old(self).justifications@
                        } else {
                            old(self).justifications@[i] is None && final(self).justifications@
                                == old(self).justifications@.update(i, Some(value)) && final(self).shares@ == old(self).shares@ && final(self).responses@ == old(self).responses@
                        })
                    }
            },
            (r == CoordinatorResult::<()>::Err(CoordinatorError::SharesExisted) || r
                == CoordinatorResult::<()>::Err(CoordinatorError::ResponsesExisted) || r
                == CoordinatorResult::<()>::Err(CoordinatorError::JustificationsExisted)) ==> *final(self) == *old(self),
    {
        let index = match self.find_participant(id_address) {
            Some(i) => i,
            None => {
                return Err(CoordinatorError::NotRegistered);
            },
        };
        proof {
            participant_idx_is(*self, id_address@, index as int);
        }
        let phase = match self.in_phase() {
            Ok(p) => p,
            Err(_) => {
                return Err(CoordinatorError::DKGEnded);
            },
        };
        if phase == 1 {
            if self.shares[index].is_some() {
                return Err(CoordinatorError::SharesExisted);
            }
            self.shares.set(index, Some(value));
            Ok(())
        } else if phase == 2 {
            if self.responses[index].is_some() {
                return Err(CoordinatorError::ResponsesExisted);
            }
            self.responses.set(index, Some(value));
            Ok(())
        } else if phase == 3 {
            if self.justifications[index].is_some() {
                return Err(CoordinatorError::JustificationsExisted);
            }
            self.justifications.set(index, Some(value));
            Ok(())
        } else {
            Err(CoordinatorError::DKGEnded)
        }
    }

    /// The published shares, one entry per participant in registration order,
    /// with the empty byte string standing for a missing publication.
    pub fn get_shares(&self) -> (r: Vec<Vec<u8>>)
        requires
            self.wf(),
        ensures
            board_view(r@, self.shares@),
    {
        collect_board(&self.shares)
    }

    /// The published responses, padded like `get_shares`.
    pub fn get_responses(&self) -> (r: Vec<Vec<u8>>)
        requires
            self.wf(),
        ensures
            board_view(r@, self.responses@),
    {
        collect_board(&self.responses)
    }

    /// The published justifications, padded like `get_shares`.
    pub fn get_justifications(&self) -> (r: Vec<Vec<u8>>)
        requires
            self.wf(),
        ensures
            board_view(r@, self.justifications@),
    {
        collect_board(&self.justifications)
    }

    /// The participant identity addresses in registration order.
    pub fn get_participants(&self) -> (r: Vec<String>)
        ensures
            r@.len() == self.participants@.len(),
            forall|i: int| 0 <= i < r@.len() ==> r@[i]@ == self.participants@[i]@,
    {
        let mut r: Vec<String> = Vec::new();
        let mut i: usize = 0;
        while i < self.participants.len()
            invariant
                i <= self.participants@.len(),
                r@.len() == i,
                forall|k: int| 0 <= k < i ==> r@[k]@ == self.participants@[k]@,
            decreases self.participants@.len() - i,
        {
            r.push(self.participants[i].clone());
            i = i + 1;
        }
        r
    }

    /// The DKG threshold together with each participant's identity public
    /// key, in registration order.
    pub fn get_bls_keys(&self) -> (r: (usize, Vec<Vec<u8>>))
        requires
            self.wf(),
        ensures
            r.0 == self.threshold,
            r.1@.len() == self.keys@.len(),
            forall|i: int| 0 <= i < r.1@.len() ==> r.1@[i]@ == self.keys@[i]@,
    {
        let mut keys: Vec<Vec<u8>> = Vec::new();
        let mut i: usize = 0;
        while i < self.keys.len()
            invariant
                i <= self.keys@.len(),
                keys@.len() == i,
                forall|k: int| 0 <= k < i ==> keys@[k]@ == self.keys@[k]@,
            decreases self.keys@.len() - i,
        {
            keys.push(clone_bytes(&self.keys[i]));
            i = i + 1;
        }
        (self.threshold, keys)
    }
}

/// `r` is the padded rendering of the board: byte-for-byte the published
/// value where one exists, the empty byte string where none does.
pub open spec fn board_view(r: Seq<Vec<u8>>, board: Seq<Option<Vec<u8>>>) -> bool {
    &&& r.len() == board.len()
    &&& forall|i: int|
        0 <= i < r.len() ==> r[i]@ == (match board[i] {
            Some(v) => v@,
            None => Seq::<u8>::empty(),
        })
}

fn collect_board(board: &Vec<Option<Vec<u8>>>) -> (r: Vec<Vec<u8>>)
    ensures
        board_view(r@, board@),
{
    let mut r: Vec<Vec<u8>> = Vec::new();
    let mut i: usize = 0;
    while i < board.len()
        invariant
            i <= board@.len(),
            r@.len() == i,
            forall|k: int|
                0 <= k < i ==> r@[k]@ == (match board@[k] {
                    Some(v) => v@,
                    None => Seq::<u8>::empty(),
                }),
        decreases board@.len() - i,
    {
        match &board[i] {
            Some(v) => {
                r.push(clone_bytes(v));
            },
            None => {
                r.push(Vec::new());
            },
        }
        i = i + 1;
    }
    r
}

/// Byte-for-byte copy of a byte string.
pub fn clone_bytes(v: &Vec<u8>) -> (r: Vec<u8>)
    ensures
        r@ == v@,
{
    let r = v.clone();
    proof {
        assert(r@ =~= v@);
    }
    r
}

/// Pins `participant_idx` to a concrete position.
pub proof fn participant_idx_is(c: Coordinator, id: Seq<char>, i: int)
    requires
        c.wf(),
        0 <= i < c.participants@.len(),
        c.participants@[i]@ == id,
    ensures
        c.is_participant(id),
        c.participant_idx(id) == i,
{
    assert(c.is_participant(id));
    let j = c.participant_idx(id);
    if i < j {
        assert(c.participants@[i]@ != c.participants@[j]@);
    } else if j < i {
        assert(c.participants@[j]@ != c.participants@[i]@);
    }
}

} // verus!

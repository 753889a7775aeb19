use vstd::prelude::*;

verus! {

/// Where a transaction stands.
#[derive(Debug, Clone, Copy, PartialEq, Eq, Structural)]
pub enum TxnState {
    Idle,
    Active,
    Committed,
    RolledBack,
    Failed,
}

/// A request that a transaction may send to the server.
#[derive(Debug, Clone, Copy, PartialEq, Eq, Structural)]
pub enum TxnOp {
    Begin,
    Run,
    Pull,
    Discard,
    Commit,
    Rollback,
    Reset,
}

/// Why a request was refused before anything was sent.
#[derive(Debug, Clone, Copy, PartialEq, Eq, Structural)]
pub enum TxnError {
    /// The transaction was committed or rolled back.
    Closed,
    /// A request failed; only a rollback or a reset is taken until then.
    Poisoned,
    /// The request does not fit the transaction's state or kind.
    Invalid,
}

/// Whether `op` may be sent in `state`; `explicit` tells an explicit
/// transaction (BEGIN .. COMMIT) from an auto-commit query.
pub open spec fn admits(state: TxnState, explicit: bool, op: TxnOp) -> Result<(), TxnError> {
    match state {
        TxnState::Committed | TxnState::RolledBack => Err(TxnError::Closed),
        TxnState::Failed => if op == TxnOp::Rollback || op == TxnOp::Reset {
            Ok(())
        } else {
            Err(TxnError::Poisoned)
        },
        TxnState::Idle => if (op == TxnOp::Begin && explicit) || (op == TxnOp::Run && !explicit) || op
            == TxnOp::Reset {
            Ok(())
        } else {
            Err(TxnError::Invalid)
        },
        TxnState::Active => if op == TxnOp::Begin || (op == TxnOp::Commit && !explicit) {
            Err(TxnError::Invalid)
        } else {
            Ok(())
        },
    }
}

/// The state after the server acknowledged `op`.
pub open spec fn after_success(state: TxnState, op: TxnOp) -> TxnState {
    match op {
        TxnOp::Begin | TxnOp::Run | TxnOp::Pull | TxnOp::Discard => TxnState::Active,
        TxnOp::Commit => TxnState::Committed,
        TxnOp::Rollback | TxnOp::Reset => TxnState::RolledBack,
    }
}

/// A transaction on one leased connection.
pub struct Txn {
    state: TxnState,
    explicit: bool,
    bookmark: Option<String>,
    open_stream: bool,
}

impl Txn {
    pub closed spec fn state(&self) -> TxnState {
        self.state
    }

    pub closed spec fn explicit(&self) -> bool {
        self.explicit
    }

    /// Whether a query's stream on this transaction is not yet exhausted.
    pub closed spec fn open_stream(&self) -> bool {
        self.open_stream
    }

    /// The progress token that the server returned on commit.
    pub closed spec fn bookmark(&self) -> Option<Seq<char>> {
        match self.bookmark {
            Some(b) => Some(b@),
            None => None,
        }
    }

    /// A transaction that has sent nothing yet.
    pub fn new(explicit: bool) -> (r: Self)
        ensures
            r.state() == TxnState::Idle,
            r.explicit() == explicit,
            r.bookmark() is None,
            !r.open_stream(),
    {
        Txn { state: TxnState::Idle, explicit, bookmark: None, open_stream: false }
    }

    pub fn state_now(&self) -> (r: TxnState)
        ensures
            r == self.state(),
    {
        self.state
    }

    pub fn bookmark_now(&self) -> (r: Option<&String>)
        ensures
            r is None <==> self.bookmark() is None,
            r is Some ==> self.bookmark() == Some(r->Some_0@),
    {
        match &self.bookmark {
            Some(b) => Some(b),
            None => None,
        }
    }

    /// Whether `op` may be sent now. An error means nothing is sent.
    pub fn request(&self, op: TxnOp) -> (r: Result<(), TxnError>)
        ensures
            r == admits(self.state(), self.explicit(), op),
    {
        match self.state {
            TxnState::Committed | TxnState::RolledBack => Err(TxnError::Closed),
            TxnState::Failed => if op == TxnOp::Rollback || op == TxnOp::Reset {
                Ok(())
            } else {
                Err(TxnError::Poisoned)
            },
            TxnState::Idle => if (op == TxnOp::Begin && self.explicit) || (op == TxnOp::Run && !self.explicit)
                || op == TxnOp::Reset {
                Ok(())
            } else {
                Err(TxnError::Invalid)
            },
            TxnState::Active => if op == TxnOp::Begin || (op == TxnOp::Commit && !self.explicit) {
                Err(TxnError::Invalid)
            } else {
                Ok(())
            },
        }
    }

    /// Records the server's SUCCESS for `op`; a commit keeps the bookmark
    /// that came with it.
    pub fn on_success(&mut self, op: TxnOp, bookmark: Option<String>)
        requires
            admits(old(self).state(), old(self).explicit(), op) is Ok,
        ensures
            final(self).state() == after_success(old(self).state(), op),
            final(self).explicit() == old(self).explicit(),
            op == TxnOp::Commit ==> final(self).bookmark() == (match bookmark {
                Some(b) => Some(b@),
                None => None::<Seq<char>>,
            }),
            op != TxnOp::Commit ==> final(self).bookmark() == old(self).bookmark(),
            final(self).open_stream() == (op == TxnOp::Run || (old(self).open_stream() && (op == TxnOp::Pull
                || op == TxnOp::Begin))),
    {
        self.open_stream = op == TxnOp::Run || (self.open_stream && (op == TxnOp::Pull || op == TxnOp::Begin));
        self.state = match op {
            TxnOp::Begin | TxnOp::Run | TxnOp::Pull | TxnOp::Discard => TxnState::Active,
            TxnOp::Commit => TxnState::Committed,
            TxnOp::Rollback | TxnOp::Reset => TxnState::RolledBack,
        };
        if op == TxnOp::Commit {
            self.bookmark = bookmark;
        }
    }

    /// Records a FAILURE from the server: the transaction is poisoned, and
    /// the server holds no more records for it.
    pub fn on_failure(&mut self)
        ensures
            final(self).state() == TxnState::Failed,
            final(self).explicit() == old(self).explicit(),
            final(self).bookmark() == old(self).bookmark(),
            !final(self).open_stream(),
    {
        self.state = TxnState::Failed;
        self.open_stream = false;
    }

    /// Records that the stream of the last query was exhausted or discarded.
    pub fn on_stream_end(&mut self)
        ensures
            final(self).state() == old(self).state(),
            final(self).explicit() == old(self).explicit(),
            final(self).bookmark() == old(self).bookmark(),
            !final(self).open_stream(),
    {
        self.open_stream = false;
    }

    /// Whether the connection may go back to the pool: no stream is open.
    pub fn may_release(&self) -> (r: bool)
        ensures
            r == !self.open_stream(),
    {
        !self.open_stream
    }

    /// Whether dropping the transaction now must send ROLLBACK first: an
    /// explicit one that is still active, or one that failed.
    pub fn rollback_on_drop(&self) -> (r: bool)
        ensures
            r == ((self.explicit() && self.state() == TxnState::Active) || self.state() == TxnState::Failed),
    {
        (self.explicit && self.state == TxnState::Active) || self.state == TxnState::Failed
    }
}

/// Once a rollback was acknowledged, a commit is refused as closed.
pub proof fn lemma_no_commit_after_rollback(state: TxnState, explicit: bool)
    requires
        admits(state, explicit, TxnOp::Rollback) is Ok,
    ensures
        admits(after_success(state, TxnOp::Rollback), explicit, TxnOp::Commit) == Err::<(), TxnError>(
            TxnError::Closed,
        ),
{
}

/// After a FAILURE every request but a rollback or a reset is refused
/// locally, whatever was sent before.
pub proof fn lemma_poisoned(explicit: bool, op: TxnOp)
    ensures
        op != TxnOp::Rollback && op != TxnOp::Reset ==> admits(TxnState::Failed, explicit, op) == Err::<
            (),
            TxnError,
        >(TxnError::Poisoned),
        op == TxnOp::Rollback || op == TxnOp::Reset ==> admits(TxnState::Failed, explicit, op) is Ok
            && after_success(TxnState::Failed, op) == TxnState::RolledBack,
{
}

} // verus!

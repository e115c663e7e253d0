//! Copying between two connections.
use crate::util::select::Either;
use vstd::prelude::*;

verus! {

/// How many bytes are read at a time.
pub const BUF_SIZE: usize = 8192;

/// A failed read, told apart by whether the peer went away without closing properly. It carries
/// the failure itself.
#[derive(Debug)]
pub enum Fault<E> {
    UnexpectedEof(E),
    Other(E),
}

/// What a read gives when an end of the connection that nobody announced counts as its end.
pub open spec fn eof_ignored<E>(v: Result<usize, Fault<E>>) -> Result<usize, Fault<E>> {
    match v {
        Err(Fault::UnexpectedEof(_)) => Ok(0),
        _ => v,
    }
}

/// Takes an end of the connection that nobody announced as its end.
pub fn ignore_unexpected_eof<E>(v: Result<usize, Fault<E>>) -> (r: Result<usize, Fault<E>>)
    ensures
        r == eof_ignored(v),
        match v {
            Ok(n) => r == Ok::<usize, Fault<E>>(n),
            Err(Fault::UnexpectedEof(_)) => r == Ok::<usize, Fault<E>>(0),
            Err(Fault::Other(e)) => r == Err::<usize, Fault<E>>(Fault::Other(e)),
        },
{
    match v {
        Err(Fault::UnexpectedEof(_)) => Ok(0),
        _ => v,
    }
}

/// How far copying between two connections `a` and `b` has come.
#[derive(Clone, Copy, Debug, PartialEq, Eq, Structural)]
pub struct CopyState {
    /// `a` has sent all it will send.
    pub a_eof: bool,
    /// `b` has sent all it will send.
    pub b_eof: bool,
    /// The bytes that went from `a` to `b`.
    pub a_to_b: usize,
    /// The bytes that went from `b` to `a`.
    pub b_to_a: usize,
}

/// What has to be done with what was read.
#[derive(Clone, Copy, Debug, PartialEq, Eq, Structural)]
pub enum CopyAction {
    /// Write to `a` that many of the bytes read from `b`.
    WriteA(usize),
    /// Write to `b` that many of the bytes read from `a`.
    WriteB(usize),
    /// Tell `a` that nothing more follows.
    ShutdownA,
    /// Tell `b` that nothing more follows.
    ShutdownB,
}

/// What follows a read of so many bytes from `a` (left) or `b` (right).
pub open spec fn copy_step(s: CopyState, read: Either<usize, usize>) -> (CopyState, CopyAction) {
    match read {
        Either::Left(n) => if n == 0 {
            (CopyState { a_eof: true, ..s }, CopyAction::ShutdownB)
        } else {
            (CopyState { a_to_b: (s.a_to_b + n) as usize, ..s }, CopyAction::WriteB(n))
        },
        Either::Right(n) => if n == 0 {
            (CopyState { b_eof: true, ..s }, CopyAction::ShutdownA)
        } else {
            (CopyState { b_to_a: (s.b_to_a + n) as usize, ..s }, CopyAction::WriteA(n))
        },
    }
}

/// Whether `read` may come next: its side is still open and the count of its bytes fits.
pub open spec fn copy_may_follow(s: CopyState, read: Either<usize, usize>) -> bool {
    match read {
        Either::Left(n) => !s.a_eof && s.a_to_b + n <= usize::MAX,
        Either::Right(n) => !s.b_eof && s.b_to_a + n <= usize::MAX,
    }
}

/// The state before anything was read.
pub open spec fn copy_start() -> CopyState {
    CopyState { a_eof: false, b_eof: false, a_to_b: 0, b_to_a: 0 }
}

impl CopyState {
    /// Nothing has been copied yet.
    pub fn new() -> (r: CopyState)
        ensures
            r == copy_start(),
            !r.a_eof && !r.b_eof && r.a_to_b == 0 && r.b_to_a == 0,
    {
        CopyState { a_eof: false, b_eof: false, a_to_b: 0, b_to_a: 0 }
    }

    /// Both sides have sent all they will send.
    pub fn finished(&self) -> (r: bool)
        ensures
            r == (self.a_eof && self.b_eof),
    {
        self.a_eof && self.b_eof
    }

    /// Takes the outcome of a read from `a` (left) or `b` (right) and says what to do next. A
    /// failed read ends the copying.
    pub fn copy_bidirectional<E>(
        &mut self,
        read: Either<Result<usize, Fault<E>>, Result<usize, Fault<E>>>,
    ) -> (r: Result<CopyAction, Fault<E>>)
        requires
            match read {
                Either::Left(v) => eof_ignored(v) matches Ok(n) ==> copy_may_follow(
                    *old(self),
                    Either::Left(n),
                ),
                Either::Right(v) => eof_ignored(v) matches Ok(n) ==> copy_may_follow(
                    *old(self),
                    Either::Right(n),
                ),
            },
        ensures
            match read {
                Either::Left(v) => match eof_ignored(v) {
                    Ok(n) => (*final(self), r) == (
                        copy_step(*old(self), Either::Left(n)).0,
                        Ok::<CopyAction, Fault<E>>(copy_step(*old(self), Either::Left(n)).1),
                    ),
                    Err(e) => *final(self) == *old(self) && r == Err::<CopyAction, Fault<E>>(e),
                },
                Either::Right(v) => match eof_ignored(v) {
                    Ok(n) => (*final(self), r) == (
                        copy_step(*old(self), Either::Right(n)).0,
                        Ok::<CopyAction, Fault<E>>(copy_step(*old(self), Either::Right(n)).1),
                    ),
                    Err(e) => *final(self) == *old(self) && r == Err::<CopyAction, Fault<E>>(e),
                },
            },
            match read {
                Either::Left(Err(Fault::Other(e))) | Either::Right(Err(Fault::Other(e))) => {
                    &&& r == Err::<CopyAction, Fault<E>>(Fault::Other(e))
                    &&& *final(self) == *old(self)
                },
                Either::Left(Err(Fault::UnexpectedEof(_))) | Either::Left(Ok(0)) => {
                    &&& r == Ok::<CopyAction, Fault<E>>(CopyAction::ShutdownB)
                    &&& *final(self) == (CopyState { a_eof: true, ..*old(self) })
                },
                Either::Right(Err(Fault::UnexpectedEof(_))) | Either::Right(Ok(0)) => {
                    &&& r == Ok::<CopyAction, Fault<E>>(CopyAction::ShutdownA)
                    &&& *final(self) == (CopyState { b_eof: true, ..*old(self) })
                },
                Either::Left(Ok(n)) => {
                    &&& r == Ok::<CopyAction, Fault<E>>(CopyAction::WriteB(n))
                    &&& final(self).a_to_b == old(self).a_to_b + n
                    &&& *final(self) == (CopyState { a_to_b: final(self).a_to_b, ..*old(self) })
                },
                Either::Right(Ok(n)) => {
                    &&& r == Ok::<CopyAction, Fault<E>>(CopyAction::WriteA(n))
                    &&& final(self).b_to_a == old(self).b_to_a + n
                    &&& *final(self) == (CopyState { b_to_a: final(self).b_to_a, ..*old(self) })
                },
            },
    {
        match read {
            Either::Left(v) => match ignore_unexpected_eof(v) {
                Ok(n) => {
                    if n == 0 {
                        self.a_eof = true;
                        Ok(CopyAction::ShutdownB)
                    } else {
                        self.a_to_b = self.a_to_b + n;
                        Ok(CopyAction::WriteB(n))
                    }
                },
                Err(e) => Err(e),
            },
            Either::Right(v) => match ignore_unexpected_eof(v) {
                Ok(n) => {
                    if n == 0 {
                        self.b_eof = true;
                        Ok(CopyAction::ShutdownA)
                    } else {
                        self.b_to_a = self.b_to_a + n;
                        Ok(CopyAction::WriteA(n))
                    }
                },
                Err(e) => Err(e),
            },
        }
    }
}

/// The state after the reads `es`.
pub open spec fn copy_run(s: CopyState, es: Seq<Either<usize, usize>>) -> CopyState
    decreases es.len(),
{
    if es.len() == 0 {
        s
    } else {
        copy_step(copy_run(s, es.drop_last()), es.last()).0
    }
}

/// Whether each of the reads `es` may follow those before it.
pub open spec fn copy_possible(s: CopyState, es: Seq<Either<usize, usize>>) -> bool
    decreases es.len(),
{
    es.len() > 0 ==> copy_possible(s, es.drop_last()) && copy_may_follow(
        copy_run(s, es.drop_last()),
        es.last(),
    )
}

/// How many bytes the reads `es` took from `a`.
pub open spec fn read_from_a(es: Seq<Either<usize, usize>>) -> nat
    decreases es.len(),
{
    if es.len() == 0 {
        0
    } else {
        read_from_a(es.drop_last()) + match es.last() {
            Either::Left(n) => n as nat,
            Either::Right(_) => 0,
        }
    }
}

/// How many bytes the reads `es` took from `b`.
pub open spec fn read_from_b(es: Seq<Either<usize, usize>>) -> nat
    decreases es.len(),
{
    if es.len() == 0 {
        0
    } else {
        read_from_b(es.drop_last()) + match es.last() {
            Either::Left(_) => 0,
            Either::Right(n) => n as nat,
        }
    }
}

/// The counts at the end are those of the bytes read, and a side is at its end exactly if its end
/// was read, which happens once.
pub proof fn law_copy_counts(es: Seq<Either<usize, usize>>)
    requires
        copy_possible(copy_start(), es),
    ensures
        ({
            let s = copy_run(copy_start(), es);
            &&& s.a_to_b == read_from_a(es)
            &&& s.b_to_a == read_from_b(es)
            &&& s.a_eof <==> es.contains(Either::Left(0))
            &&& s.b_eof <==> es.contains(Either::Right(0))
            &&& forall|i: int, j: int|
                0 <= i < es.len() && 0 <= j < es.len() && es[i] == es[j] && (es[i]
                    == Either::<usize, usize>::Left(0) || es[i] == Either::<usize, usize>::Right(0))
                    ==> i == j
        }),
    decreases es.len(),
{
    if es.len() > 0 {
        let init = es.drop_last();
        law_copy_counts(init);
        assert(es == init.push(es.last()));
        assert forall|e: Either<usize, usize>| es.contains(e) == (init.contains(e) || es.last()
            == e) by {
            if init.contains(e) {
                let i = choose|i: int| 0 <= i < init.len() && init[i] == e;
                assert(es[i] == e);
            }
            if es.last() == e {
                assert(es[es.len() - 1] == e);
            }
            if es.contains(e) {
                let i = choose|i: int| 0 <= i < es.len() && es[i] == e;
                if i < init.len() {
                    assert(init[i] == e);
                }
            }
        }
        assert forall|i: int, j: int|
            0 <= i < es.len() && 0 <= j < es.len() && es[i] == es[j] && (es[i] == Either::<
                usize,
                usize,
            >::Left(0) || es[i] == Either::<usize, usize>::Right(0)) implies i == j by {
            if i != j {
                let m = if i < j { i } else { j };
                assert(init[m] == es[m]);
                assert(init.contains(es[m]));
                if i < init.len() && j < init.len() {
                    assert(init[i] == init[j]);
                }
            }
        }
    }
}

/// What is done with the reads `es`, one action for each.
pub open spec fn copy_actions(s: CopyState, es: Seq<Either<usize, usize>>) -> Seq<CopyAction>
    decreases es.len(),
{
    if es.len() == 0 {
        seq![]
    } else {
        copy_actions(s, es.drop_last()).push(copy_step(copy_run(s, es.drop_last()), es.last()).1)
    }
}

/// How many bytes are written to `b` by `actions`.
pub open spec fn written_to_b(actions: Seq<CopyAction>) -> nat
    decreases actions.len(),
{
    if actions.len() == 0 {
        0
    } else {
        written_to_b(actions.drop_last()) + match actions.last() {
            CopyAction::WriteB(n) => n as nat,
            _ => 0,
        }
    }
}

/// How many bytes are written to `a` by `actions`.
pub open spec fn written_to_a(actions: Seq<CopyAction>) -> nat
    decreases actions.len(),
{
    if actions.len() == 0 {
        0
    } else {
        written_to_a(actions.drop_last()) + match actions.last() {
            CopyAction::WriteA(n) => n as nat,
            _ => 0,
        }
    }
}

/// Whatever is read from one side is written to the other, read by read and all of it; an end of one
/// side is told to the other, and nothing else is. So the bytes written to a side are those read from
/// the other.
pub proof fn law_copy_loses_nothing(es: Seq<Either<usize, usize>>)
    requires
        copy_possible(copy_start(), es),
    ensures
        ({
            let actions = copy_actions(copy_start(), es);
            &&& actions.len() == es.len()
            &&& forall|i: int|
                0 <= i < es.len() ==> #[trigger] actions[i] == match es[i] {
                    Either::Left(n) => if n == 0 {
                        CopyAction::ShutdownB
                    } else {
                        CopyAction::WriteB(n)
                    },
                    Either::Right(n) => if n == 0 {
                        CopyAction::ShutdownA
                    } else {
                        CopyAction::WriteA(n)
                    },
                }
            &&& written_to_b(actions) == read_from_a(es)
            &&& written_to_a(actions) == read_from_b(es)
        }),
    decreases es.len(),
{
    if es.len() > 0 {
        let init = es.drop_last();
        law_copy_loses_nothing(init);
        let before = copy_actions(copy_start(), init);
        let actions = copy_actions(copy_start(), es);
        assert(actions.drop_last() =~= before);
        assert forall|i: int| 0 <= i < es.len() implies #[trigger] actions[i] == match es[i] {
            Either::Left(n) => if n == 0 {
                CopyAction::ShutdownB
            } else {
                CopyAction::WriteB(n)
            },
            Either::Right(n) => if n == 0 {
                CopyAction::ShutdownA
            } else {
                CopyAction::WriteA(n)
            },
        } by {
            if i < init.len() {
                assert(actions[i] == before[i]);
                assert(es[i] == init[i]);
            }
        }
    }
}

/// The counts say what was written: as many bytes went to a side as the actions wrote to it.
pub proof fn law_copy_counts_what_is_written(es: Seq<Either<usize, usize>>)
    requires
        copy_possible(copy_start(), es),
    ensures
        ({
            let s = copy_run(copy_start(), es);
            let actions = copy_actions(copy_start(), es);
            s.a_to_b == written_to_b(actions) && s.b_to_a == written_to_a(actions)
        }),
{
    law_copy_counts(es);
    law_copy_loses_nothing(es);
}

/// A side that has not ended may give any number of bytes that can still be counted, and one that
/// has ended gives none.
pub proof fn law_open_sides_may_give_anything(s: CopyState, n: usize)
    ensures
        copy_may_follow(s, Either::Left(n)) <==> !s.a_eof && s.a_to_b + n <= usize::MAX,
        copy_may_follow(s, Either::Right(n)) <==> !s.b_eof && s.b_to_a + n <= usize::MAX,
{
}

/// Only a peer that went away without closing is forgiven: its read counts as the end, and every
/// other outcome of a read stays what it is.
pub proof fn law_only_the_unannounced_end_is_forgiven<E>(n: usize, e: E)
    ensures
        eof_ignored(Err::<usize, Fault<E>>(Fault::UnexpectedEof(e))) == Ok::<usize, Fault<E>>(0),
        eof_ignored(Ok::<usize, Fault<E>>(n)) == Ok::<usize, Fault<E>>(n),
        eof_ignored(Err::<usize, Fault<E>>(Fault::Other(e))) == Err::<usize, Fault<E>>(
            Fault::Other(e),
        ),
{
}

} // verus!

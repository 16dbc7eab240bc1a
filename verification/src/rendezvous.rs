//! A port where the nodes of a run can meet.

use vstd::prelude::*;
use crate::error::Error;
use crate::path::{below, join_path};
use crate::text::{decimal, is_digit, lemma_decimal_reads_back, number};

verus! {

/// How often a port is tried.
pub const PORT_ATTEMPTS: u32 = 128;

/// What came of the attempt to claim a port that is free.
#[derive(Debug)]
pub enum Claim {
    Granted,
    /// Someone else has claimed it.
    Taken,
    /// It cannot be claimed, and why.
    Broken(String),
}

pub enum ClaimView {
    Granted,
    Taken,
    Broken(Seq<char>),
}

impl View for Claim {
    type V = ClaimView;

    open spec fn view(&self) -> ClaimView {
        match self {
            Claim::Granted => ClaimView::Granted,
            Claim::Taken => ClaimView::Taken,
            Claim::Broken(why) => ClaimView::Broken(why@),
        }
    }
}

/// The file whose lock claims a port.
pub open spec fn claim_file(root: Seq<char>, port: u16) -> Seq<char> {
    below(root, decimal(port as nat))
}

/// The file whose lock claims a port.
pub fn claim_path(root: &str, port: u16) -> (r: String)
    ensures
        r@ == claim_file(root@, port),
{
    join_path(root, number(port as u64).as_str())
}

/// A port that is claimed. Until it is handed to the workload, this program listens on it,
/// so that nobody else can.
#[derive(Debug)]
pub struct Reservation {
    port: u16,
    listening: bool,
}

pub struct ReservationView {
    pub port: u16,
    pub listening: bool,
}

impl View for Reservation {
    type V = ReservationView;

    closed spec fn view(&self) -> ReservationView {
        ReservationView { port: self.port, listening: self.listening }
    }
}

/// What comes of one attempt to claim a port: a port that someone else has claimed is passed
/// over.
pub open spec fn attempted(port: u16, claim: ClaimView) -> Result<
    Option<ReservationView>,
    Seq<Seq<char>>,
> {
    match claim {
        ClaimView::Granted => Ok(Some(ReservationView { port, listening: true })),
        ClaimView::Taken => Ok(None),
        ClaimView::Broken(why) => Err(seq!["reserving rendezvous port"@, why]),
    }
}

/// A reservation whose port is left to the workload.
pub open spec fn handed_off(v: ReservationView) -> ReservationView {
    ReservationView { port: v.port, listening: false }
}

/// The search for a port.
#[derive(Debug)]
pub struct PortSearch {
    tried: u32,
}

impl View for PortSearch {
    type V = nat;

    /// How many ports were tried.
    closed spec fn view(&self) -> nat {
        self.tried as nat
    }
}

impl PortSearch {
    pub fn new() -> (r: PortSearch)
        ensures
            r@ == 0,
    {
        PortSearch { tried: 0 }
    }

    /// Whether another port may be tried.
    pub fn goes_on(&self) -> (r: Result<(), Error>)
        ensures
            match r {
                Ok(_) => self@ < PORT_ATTEMPTS,
                Err(e) => self@ >= PORT_ATTEMPTS && e@ == seq![
                    "unable to reserve an available rendezvous port"@,
                ],
            },
    {
        if self.tried < PORT_ATTEMPTS {
            Ok(())
        } else {
            Err(Error::new("unable to reserve an available rendezvous port"))
        }
    }
}

impl Reservation {
    /// Takes what came of an attempt to claim a port. A port that someone else has claimed is
    /// passed over.
    pub fn allocate(search: &mut PortSearch, port: u16, claim: Claim) -> (r: Result<
        Option<Reservation>,
        Error,
    >)
        requires
            old(search)@ < PORT_ATTEMPTS,
        ensures
            final(search)@ == old(search)@ + 1,
            match r {
                Ok(Some(found)) => attempted(port, claim@) == Ok::<
                    Option<ReservationView>,
                    Seq<Seq<char>>,
                >(Some(found@)),
                Ok(None) => attempted(port, claim@) == Ok::<
                    Option<ReservationView>,
                    Seq<Seq<char>>,
                >(None),
                Err(e) => attempted(port, claim@) == Err::<
                    Option<ReservationView>,
                    Seq<Seq<char>>,
                >(e@),
            },
    {
        search.tried = search.tried + 1;
        match claim {
            Claim::Granted => Ok(Some(Reservation { port, listening: true })),
            Claim::Taken => Ok(None),
            Claim::Broken(why) => {
                let e = Error::of(why).context("reserving rendezvous port");
                assert(e@ =~= seq!["reserving rendezvous port"@, why@]);
                Err(e)
            },
        }
    }

    pub fn port(&self) -> (r: u16)
        ensures
            r == self@.port,
    {
        self.port
    }

    /// Whether this program still listens on the port.
    pub fn is_listening(&self) -> (r: bool)
        ensures
            r == self@.listening,
    {
        self.listening
    }

    /// Leaves the port to the workload. The claim stays.
    pub fn handoff(&mut self)
        ensures
            final(self)@ == handed_off(old(self)@),
    {
        self.listening = false;
    }
}

// ----------------------------------------------------------------- laws

/// What a search comes to that tries these ports one by one, each with what comes of its claim.
/// It ends with the first port that is not passed over.
pub open spec fn search_result(attempts: Seq<(u16, ClaimView)>) -> Result<
    Option<ReservationView>,
    Seq<Seq<char>>,
>
    decreases attempts.len(),
{
    if attempts.len() == 0 {
        Ok(None)
    } else {
        match search_result(attempts.drop_last()) {
            Ok(None) => if attempts.len() <= PORT_ATTEMPTS {
                attempted(attempts.last().0, attempts.last().1)
            } else {
                Err(seq!["unable to reserve an available rendezvous port"@])
            },
            done => done,
        }
    }
}

/// What a search ends with was granted to it.
proof fn lemma_reserved_was_granted(attempts: Seq<(u16, ClaimView)>) -> (i: int)
    requires
        search_result(attempts) matches Ok(Some(_)),
    ensures
        0 <= i < attempts.len(),
        attempts[i].1 is Granted,
        search_result(attempts) == Ok::<Option<ReservationView>, Seq<Seq<char>>>(
            Some(ReservationView { port: attempts[i].0, listening: true }),
        ),
    decreases attempts.len(),
{
    if search_result(attempts.drop_last()) == Ok::<Option<ReservationView>, Seq<Seq<char>>>(None) {
        attempts.len() - 1
    } else {
        lemma_reserved_was_granted(attempts.drop_last())
    }
}

proof fn lemma_claim_files_differ(root: Seq<char>, a: u16, b: u16)
    requires
        claim_file(root, a) == claim_file(root, b),
    ensures
        a == b,
{
    lemma_decimal_reads_back(a as nat);
    lemma_decimal_reads_back(b as nat);
    let x = decimal(a as nat);
    let y = decimal(b as nat);
    assert(is_digit(x[0]) && is_digit(y[0]));
    let front = if root.len() == 0 || root.last() == '/' {
        root
    } else {
        root + seq!['/']
    };
    assert(claim_file(root, a) == front + x);
    assert(claim_file(root, b) == front + y);
    assert(x =~= (front + x).skip(front.len() as int));
    assert(y =~= (front + y).skip(front.len() as int));
}

/// Two reservations under one directory have different ports, as long as no claim that is held
/// is granted again. The claim of a reservation is the same after its port was left to the
/// workload, so that changes nothing. Different ports are claimed by different files: a
/// reservation keeps nobody off another port.
pub proof fn law_reservations_have_ports_of_their_own(
    root: Seq<char>,
    first: ReservationView,
    held: Set<Seq<char>>,
    attempts: Seq<(u16, ClaimView)>,
)
    requires
        held.contains(claim_file(root, first.port)),
        forall|i: int|
            0 <= i < attempts.len() && held.contains(
                claim_file(root, (#[trigger] attempts[i]).0),
            ) ==> !(attempts[i].1 is Granted),
    ensures
        search_result(attempts) matches Ok(Some(second)) ==> second.port != first.port
            && second.port != handed_off(first).port && !held.contains(
            claim_file(root, second.port),
        ) && second.listening,
        claim_file(root, handed_off(first).port) == claim_file(root, first.port),
        forall|port: u16|
            port != first.port ==> #[trigger] claim_file(root, port) != claim_file(
                root,
                first.port,
            ),
{
    if search_result(attempts) matches Ok(Some(_)) {
        let i = lemma_reserved_was_granted(attempts);
        assert(attempts[i].1 is Granted);
    }
    assert forall|port: u16| port != first.port implies #[trigger] claim_file(root, port)
        != claim_file(root, first.port) by {
        if claim_file(root, port) == claim_file(root, first.port) {
            lemma_claim_files_differ(root, port, first.port);
        }
    }
}

/// A port that is granted is listened on until it is left to the workload; one that is taken is
/// passed over, and one that cannot be claimed ends the search. Not more than 128 ports are tried.
pub proof fn law_ports_are_tried_a_limited_number_of_times(
    port: u16,
    why: Seq<char>,
    attempts: Seq<(u16, ClaimView)>,
)
    ensures
        attempted(port, ClaimView::Granted) matches Ok(Some(v)) && v.port == port && v.listening,
        attempted(port, ClaimView::Taken) matches Ok(None),
        attempted(port, ClaimView::Broken(why)) matches Err(e) && e.last() == why,
        handed_off(ReservationView { port, listening: true }) == (ReservationView {
            port,
            listening: false,
        }),
        attempts.len() == 129 && (forall|i: int|
            0 <= i < 129 ==> (#[trigger] attempts[i]).1 is Taken) ==> search_result(attempts) is Err,
        attempts.len() == 128 && (forall|i: int|
            0 <= i < 127 ==> (#[trigger] attempts[i]).1 is Taken) && attempts[127].1 is Granted
            ==> search_result(attempts) is Ok,
{
    if attempts.len() == 129 && (forall|i: int|
        0 <= i < 129 ==> (#[trigger] attempts[i]).1 is Taken) {
        let t = attempts.drop_last();
        assert forall|i: int| 0 <= i < t.len() implies (#[trigger] t[i]).1 is Taken by {
            assert(t[i] == attempts[i]);
        }
        lemma_passed_over(t);
    }
    if attempts.len() == 128 && (forall|i: int|
        0 <= i < 127 ==> (#[trigger] attempts[i]).1 is Taken) && attempts[127].1 is Granted {
        let t = attempts.drop_last();
        assert forall|i: int| 0 <= i < t.len() implies (#[trigger] t[i]).1 is Taken by {
            assert(t[i] == attempts[i]);
        }
        lemma_passed_over(t);
        assert(attempts.last() == attempts[127]);
    }
}

proof fn lemma_passed_over(attempts: Seq<(u16, ClaimView)>)
    requires
        attempts.len() <= 128,
        forall|i: int| 0 <= i < attempts.len() ==> (#[trigger] attempts[i]).1 is Taken,
    ensures
        search_result(attempts) == Ok::<Option<ReservationView>, Seq<Seq<char>>>(None),
    decreases attempts.len(),
{
    if attempts.len() > 0 {
        let t = attempts.drop_last();
        assert forall|i: int| 0 <= i < t.len() implies (#[trigger] t[i]).1 is Taken by {
            assert(t[i] == attempts[i]);
        }
        lemma_passed_over(t);
        assert(attempts[attempts.len() - 1].1 is Taken);
    }
}

/// A search counts what it tries, and ends once it may try no more.
pub proof fn law_searches_count_their_attempts(
    search: &mut PortSearch,
    port: u16,
    claim: Claim,
    r: Result<Option<Reservation>, Error>,
    other: &PortSearch,
    on: Result<(), Error>,
    reservation: &mut Reservation,
    start: PortSearch,
)
    requires
        call_ensures(Reservation::allocate, (search, port, claim), r),
        call_ensures(PortSearch::goes_on, (other,), on),
        call_ensures(Reservation::handoff, (reservation,), ()),
        call_ensures(PortSearch::new, (), start),
    ensures
        start@ == 0,
        final(search)@ == old(search)@ + 1,
        claim is Granted ==> (r matches Ok(Some(found)) && found@.port == port && found@.listening),
        claim is Taken ==> (r matches Ok(None)),
        claim is Broken ==> r is Err,
        on is Ok <==> other@ < 128,
        final(reservation)@.port == old(reservation)@.port && !final(reservation)@.listening,
{
}

} // verus!

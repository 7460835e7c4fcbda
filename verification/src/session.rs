//! What the printer's answers make of a request and of a whole print job: the
//! frames the client sends and how it ends, as functions of the byte strings
//! that the transport's reads return.
use vstd::prelude::*;

use crate::error::PrinterError;
use crate::packet::{drain_frames, frame, NiimbotPacket};
use crate::printer::{
    acknowledges, dimension_payload, first_settling, handshake_frames, is_new_protocol,
    lemma_settling_shape, link_failure, reply_code, request_code, start_print_payload,
    RequestCode,
};

verus! {

/// Waiting for a reply of type `code`, with at most `attempts` reads, when
/// the receive buffer holds `buffered` and the reads return `reads` in turn.
/// Each read is appended to the buffer and the complete frames are drained
/// from it; an invalid frame, or the first packet that settles the request
/// (see [`first_settling`]), ends the wait, and packets drained along with it
/// are dropped. Gives the number of reads made, the buffer left, and the
/// outcome: `Some(Ok(reply))`, `Some(Err(e))` for a failure, a timeout when
/// `attempts` reads brought nothing that settles it, or `None` when `reads`
/// ran out first (a read failed).
pub open spec fn exchange(buffered: Seq<u8>, reads: Seq<Seq<u8>>, code: u8, attempts: nat) -> (
    nat,
    Seq<u8>,
    Option<Result<(u8, Seq<u8>), PrinterError>>,
)
    decreases attempts,
{
    if attempts == 0 {
        (0, buffered, Some(Err(PrinterError::Timeout)))
    } else if reads.len() == 0 {
        (0, buffered, None)
    } else {
        let drained = drain_frames(buffered + reads[0]);
        match drained.2 {
            Some(e) => (1, drained.1, Some(Err(PrinterError::Packet(e)))),
            None => match first_settling(drained.0, code) {
                Some(settled) => (1, drained.1, Some(settled)),
                None => {
                    let rest = exchange(drained.1, reads.drop_first(), code, (attempts - 1) as nat);
                    (rest.0 + 1, rest.1, rest.2)
                },
            },
        }
    }
}

/// An exchange reads at most `attempts` times and no more than it is given,
/// all of them when they ran out; a reply has the awaited type, a failure is
/// a timeout or a failure of the link; and once it has ended, reads that come
/// after it change nothing.
pub proof fn lemma_exchange_shape(
    buffered: Seq<u8>,
    reads: Seq<Seq<u8>>,
    more: Seq<Seq<u8>>,
    code: u8,
    attempts: nat,
)
    ensures
        ({
            let answer = exchange(buffered, reads, code, attempts);
            &&& answer.0 <= reads.len()
            &&& answer.0 <= attempts
            &&& answer.2 is None ==> answer.0 == reads.len()
            &&& answer.2 matches Some(Ok(r)) ==> r.0 == code
            &&& answer.2 matches Some(Err(e)) ==> !(e is Io) && (e is Timeout || link_failure(e))
            &&& answer.2 is Some ==> exchange(buffered, reads + more, code, attempts) == answer
        }),
    decreases attempts,
{
    if attempts > 0 && reads.len() > 0 {
        let drained = drain_frames(buffered + reads[0]);
        assert((reads + more)[0] == reads[0]);
        assert((reads + more).drop_first() =~= reads.drop_first() + more);
        lemma_settling_shape(drained.0, code);
        lemma_exchange_shape(drained.1, reads.drop_first(), more, code, (attempts - 1) as nat);
    }
}

/// A read that settles nothing only adds itself to the count of an exchange.
pub(crate) proof fn lemma_exchange_unsettled_read(
    buffered: Seq<u8>,
    read: Seq<u8>,
    reads: Seq<Seq<u8>>,
    code: u8,
    attempts: nat,
)
    requires
        attempts > 0,
        drain_frames(buffered + read).2 is None,
        first_settling(drain_frames(buffered + read).0, code) is None,
    ensures
        ({
            let rest = exchange(drain_frames(buffered + read).1, reads, code, (attempts - 1) as nat);
            exchange(buffered, seq![read] + reads, code, attempts) == (rest.0 + 1, rest.1, rest.2)
        }),
{
    assert((seq![read] + reads)[0] == read);
    assert((seq![read] + reads).drop_first() =~= reads);
}

/// Reads `taken` from the front of `a + b` leave the rest of `a`, then `b`.
pub(crate) proof fn lemma_skip_concat(a: Seq<Seq<u8>>, b: Seq<Seq<u8>>, taken: int)
    requires
        0 <= taken <= a.len(),
    ensures
        (a + b).skip(taken) == a.skip(taken) + b,
{
    assert((a + b).skip(taken) =~= a.skip(taken) + b);
}

/// Sending `requests` in order (each the bytes written and the type of the
/// reply it waits for, if it waits for one), each that waits for a reply waiting as in
/// [`exchange`] with six reads; the acknowledgement in a reply is not
/// checked. Gives the byte strings written, the reads left, the buffer left,
/// and how it ended: `None` when every request went through, otherwise
/// `Some(Some(e))` for the failure of a request, or `Some(None)` when the
/// reads ran out.
pub open spec fn run_requests(
    reads: Seq<Seq<u8>>,
    buffered: Seq<u8>,
    requests: Seq<(Seq<u8>, Option<u8>)>,
) -> (Seq<Seq<u8>>, Seq<Seq<u8>>, Seq<u8>, Option<Option<PrinterError>>)
    decreases requests.len(),
{
    if requests.len() == 0 {
        (Seq::empty(), reads, buffered, None)
    } else {
        let bytes = requests[0].0;
        match requests[0].1 {
            None => {
                let rest = run_requests(reads, buffered, requests.drop_first());
                (seq![bytes] + rest.0, rest.1, rest.2, rest.3)
            },
            Some(code) => {
                let answer = exchange(buffered, reads, code, 6);
                let left = reads.skip(answer.0 as int);
                match answer.2 {
                    Some(Ok(_)) => {
                        let rest = run_requests(left, answer.1, requests.drop_first());
                        (seq![bytes] + rest.0, rest.1, rest.2, rest.3)
                    },
                    Some(Err(e)) => (seq![bytes], left, answer.1, Some(Some(e))),
                    None => (seq![bytes], left, answer.1, Some(None)),
                }
            },
        }
    }
}

/// Once requests have ended other than by running out of reads, reads that
/// come after them change nothing but the reads left.
pub(crate) proof fn lemma_requests_extend(
    reads: Seq<Seq<u8>>,
    more: Seq<Seq<u8>>,
    buffered: Seq<u8>,
    requests: Seq<(Seq<u8>, Option<u8>)>,
)
    requires
        run_requests(reads, buffered, requests).3 != Some(None::<PrinterError>),
    ensures
        ({
            let run = run_requests(reads, buffered, requests);
            run_requests(reads + more, buffered, requests) == (run.0, run.1 + more, run.2, run.3)
        }),
    decreases requests.len(),
{
    if requests.len() > 0 {
        let rest = requests.drop_first();
        match requests[0].1 {
            None => {
                lemma_requests_extend(reads, more, buffered, rest);
            },
            Some(code) => {
                let answer = exchange(buffered, reads, code, 6);
                lemma_exchange_shape(buffered, reads, more, code, 6);
                lemma_skip_concat(reads, more, answer.0 as int);
                if answer.2 matches Some(Ok(_)) {
                    lemma_requests_extend(reads.skip(answer.0 as int), more, answer.1, rest);
                }
            },
        }
    }
}

/// With no reads left, requests ending with one that waits for a reply run
/// out of reads, after writing at least the first of them.
pub(crate) proof fn lemma_requests_starved(buffered: Seq<u8>, requests: Seq<(Seq<u8>, Option<u8>)>)
    requires
        requests.len() > 0,
        requests.last().1 is Some,
    ensures
        ({
            let run = run_requests(Seq::empty(), buffered, requests);
            &&& run.3 == Some(None::<PrinterError>)
            &&& 1 <= run.0.len() <= requests.len()
            &&& run.0[0] == requests[0].0
        }),
    decreases requests.len(),
{
    let rest = requests.drop_first();
    if requests[0].1 is None {
        assert(rest.last() == requests.last());
        lemma_requests_starved(buffered, rest);
    } else {
        let code = requests[0].1->0;
        assert(exchange(buffered, Seq::empty(), code, 6).2 is None);
    }
}

/// The requests of one page showing `image` whose rows are `rows`: density,
/// label type 1, start of the job, start of the page and page size, each
/// waiting for its reply; the rows, which wait for none; the end of the page.
/// In the newer protocol (`extended`) the start of the job and the page size
/// carry the copy count.
pub open spec fn page_requests(
    rows: Seq<NiimbotPacket>,
    image: (u32, u32, Seq<u8>),
    density: u8,
    quantity: u16,
    extended: bool,
) -> Seq<(Seq<u8>, Option<u8>)> {
    seq![
        (
            frame(request_code(RequestCode::SetLabelDensity), seq![density]),
            Some(reply_code(RequestCode::SetLabelDensity, 16)),
        ),
        (
            frame(request_code(RequestCode::SetLabelType), seq![1u8]),
            Some(reply_code(RequestCode::SetLabelType, 16)),
        ),
        (
            frame(request_code(RequestCode::StartPrint), start_print_payload(quantity, extended)),
            Some(reply_code(RequestCode::StartPrint, 1)),
        ),
        (
            frame(request_code(RequestCode::StartPagePrint), seq![1u8]),
            Some(reply_code(RequestCode::StartPagePrint, 1)),
        ),
        (
            frame(
                request_code(RequestCode::SetDimension),
                dimension_payload(image.1 as u16, image.0 as u16, quantity, extended),
            ),
            Some(reply_code(RequestCode::SetDimension, 1)),
        ),
    ] + rows.map_values(|p: NiimbotPacket| (frame(p@.0, p@.1), None::<u8>)) + seq![
        (
            frame(request_code(RequestCode::EndPagePrint), seq![1u8]),
            Some(reply_code(RequestCode::EndPagePrint, 1)),
        ),
    ]
}

/// The request asking whether the job has ended.
pub open spec fn end_poll() -> Seq<u8> {
    frame(request_code(RequestCode::EndPrint), seq![1u8])
}

/// Asking whether the job has ended, `done` times asked already, until a reply
/// acknowledges it; each time waiting as in [`exchange`] with six reads. Gives
/// the byte strings written and how it ended: `Some(Ok(()))` once a reply
/// acknowledged the end, `Some(Err(e))` for a failure (a timeout once the
/// count of polls reaches `u64::MAX`), `None` when the reads ran out.
pub open spec fn run_polls(reads: Seq<Seq<u8>>, buffered: Seq<u8>, done: nat) -> (
    Seq<Seq<u8>>,
    Option<Result<(), PrinterError>>,
)
    decreases u64::MAX - done,
{
    if done >= u64::MAX {
        (Seq::empty(), Some(Err(PrinterError::Timeout)))
    } else {
        let answer = exchange(buffered, reads, reply_code(RequestCode::EndPrint, 1), 6);
        match answer.2 {
            Some(Ok(reply)) => if acknowledges(reply.1) {
                (seq![end_poll()], Some(Ok(())))
            } else {
                let rest = run_polls(reads.skip(answer.0 as int), answer.1, done + 1);
                (seq![end_poll()] + rest.0, rest.1)
            },
            Some(Err(e)) => (seq![end_poll()], Some(Err(e))),
            None => (seq![end_poll()], None),
        }
    }
}

/// A poll whose reply does not acknowledge the end is followed by the next.
pub(crate) proof fn lemma_polls_step(
    reads: Seq<Seq<u8>>,
    more: Seq<Seq<u8>>,
    buffered: Seq<u8>,
    done: nat,
)
    requires
        done < u64::MAX,
        exchange(buffered, reads, reply_code(RequestCode::EndPrint, 1), 6).0 == reads.len(),
        exchange(buffered, reads, reply_code(RequestCode::EndPrint, 1), 6).2 matches Some(
            Ok(reply),
        ) && !acknowledges(reply.1),
    ensures
        ({
            let answer = exchange(buffered, reads, reply_code(RequestCode::EndPrint, 1), 6);
            let rest = run_polls(more, answer.1, done + 1);
            run_polls(reads + more, buffered, done) == (seq![end_poll()] + rest.0, rest.1)
        }),
{
    let code = reply_code(RequestCode::EndPrint, 1);
    lemma_exchange_shape(buffered, reads, more, code, 6);
    lemma_skip_concat(reads, more, reads.len() as int);
    assert(reads.skip(reads.len() as int) + more =~= more);
}

/// A poll that ends the polling: its reply acknowledged the end, it failed,
/// or the reads ran out.
pub(crate) proof fn lemma_polls_last(reads: Seq<Seq<u8>>, buffered: Seq<u8>, done: nat)
    requires
        done < u64::MAX,
        !(exchange(buffered, reads, reply_code(RequestCode::EndPrint, 1), 6).2 matches Some(
            Ok(reply),
        ) && !acknowledges(reply.1)),
    ensures
        ({
            let answer = exchange(buffered, reads, reply_code(RequestCode::EndPrint, 1), 6);
            run_polls(reads, buffered, done) == (seq![end_poll()], match answer.2 {
                Some(Ok(_)) => Some(Ok(())),
                Some(Err(e)) => Some(Err(e)),
                None => None::<Result<(), PrinterError>>,
            })
        }),
{
}

/// The Bluetooth handshake: the connect frame behind its prefix byte, waiting
/// for its reply, then the request for the printer's status, waiting for the
/// status. Gives the byte strings written, the reads left, the buffer left and
/// how it ended: `Some(Ok(extended))` with whether the status reports the
/// newer protocol, `Some(Err(e))` for a failure, `None` when the reads ran out.
pub open spec fn handshake_run(reads: Seq<Seq<u8>>, buffered: Seq<u8>) -> (
    Seq<Seq<u8>>,
    Seq<Seq<u8>>,
    Seq<u8>,
    Option<Result<bool, PrinterError>>,
) {
    let connect = exchange(buffered, reads, reply_code(RequestCode::Connect, 1), 6);
    let left = reads.skip(connect.0 as int);
    match connect.2 {
        Some(Ok(_)) => {
            let status = exchange(
                connect.1,
                left,
                reply_code(RequestCode::GetPrinterStatus, 16),
                6,
            );
            (
                handshake_frames(),
                left.skip(status.0 as int),
                status.1,
                match status.2 {
                    Some(Ok(reply)) => Some(Ok(is_new_protocol(reply.1))),
                    Some(Err(e)) => Some(Err(e)),
                    None => None,
                },
            )
        },
        Some(Err(e)) => (handshake_frames().take(1), left, connect.1, Some(Err(e))),
        None => (handshake_frames().take(1), left, connect.1, None),
    }
}

/// Once the handshake went through, reads that come after it are left over.
pub(crate) proof fn lemma_handshake_extend(reads: Seq<Seq<u8>>, more: Seq<Seq<u8>>, buffered: Seq<u8>)
    requires
        handshake_run(reads, buffered).3 matches Some(Ok(_)),
    ensures
        ({
            let run = handshake_run(reads, buffered);
            handshake_run(reads + more, buffered) == (run.0, run.1 + more, run.2, run.3)
        }),
{
    let connect = exchange(buffered, reads, reply_code(RequestCode::Connect, 1), 6);
    lemma_exchange_shape(buffered, reads, more, reply_code(RequestCode::Connect, 1), 6);
    lemma_skip_concat(reads, more, connect.0 as int);
    let left = reads.skip(connect.0 as int);
    let code = reply_code(RequestCode::GetPrinterStatus, 16);
    let status = exchange(connect.1, left, code, 6);
    lemma_exchange_shape(connect.1, left, more, code, 6);
    lemma_skip_concat(left, more, status.0 as int);
}

/// The page, then, when it went through, the polls for the end of the job.
/// Gives the byte strings written and how the job ended (see [`run_polls`]).
pub open spec fn page_run(
    reads: Seq<Seq<u8>>,
    buffered: Seq<u8>,
    rows: Seq<NiimbotPacket>,
    image: (u32, u32, Seq<u8>),
    density: u8,
    quantity: u16,
    extended: bool,
) -> (Seq<Seq<u8>>, Option<Result<(), PrinterError>>) {
    let page = run_requests(
        reads,
        buffered,
        page_requests(rows, image, density, quantity, extended),
    );
    match page.3 {
        None => {
            let polls = run_polls(page.1, page.2, 0);
            (page.0 + polls.0, polls.1)
        },
        Some(Some(e)) => (page.0, Some(Err(e))),
        Some(None) => (page.0, None),
    }
}

/// A whole print job of `image` (rows `rows`) at `density`, `quantity`
/// copies, over a link that needs the handshake or not: the byte strings
/// written and how the job ended, `Some(Ok(()))` when the printer acknowledged
/// its end, `Some(Err(e))` for a failure, `None` when the reads ran out. The
/// handshake's status picks the protocol; without a handshake the job uses
/// the older one.
pub open spec fn job_run(
    reads: Seq<Seq<u8>>,
    buffered: Seq<u8>,
    rows: Seq<NiimbotPacket>,
    image: (u32, u32, Seq<u8>),
    density: u8,
    quantity: u16,
    handshake: bool,
) -> (Seq<Seq<u8>>, Option<Result<(), PrinterError>>) {
    if handshake {
        let opening = handshake_run(reads, buffered);
        match opening.3 {
            Some(Ok(extended)) => {
                let rest = page_run(
                    opening.1,
                    opening.2,
                    rows,
                    image,
                    density,
                    quantity,
                    extended,
                );
                (opening.0 + rest.0, rest.1)
            },
            Some(Err(e)) => (opening.0, Some(Err(e))),
            None => (opening.0, None),
        }
    } else {
        page_run(reads, buffered, rows, image, density, quantity, false)
    }
}

/// After an opening that went through (the handshake, or nothing when the
/// link needs none), the job is that opening followed by the page and polls
/// run on the reads that come after it.
pub(crate) proof fn lemma_job_opened(
    reads: Seq<Seq<u8>>,
    more: Seq<Seq<u8>>,
    buffered: Seq<u8>,
    after: Seq<u8>,
    rows: Seq<NiimbotPacket>,
    image: (u32, u32, Seq<u8>),
    density: u8,
    quantity: u16,
    handshake: bool,
    extended: bool,
)
    requires
        handshake ==> handshake_run(reads, buffered) == (
            handshake_frames(),
            Seq::<Seq<u8>>::empty(),
            after,
            Some(Ok::<bool, PrinterError>(extended)),
        ),
        !handshake ==> reads.len() == 0 && after == buffered && !extended,
    ensures
        ({
            let rest = page_run(more, after, rows, image, density, quantity, extended);
            let lead = if handshake {
                handshake_frames()
            } else {
                Seq::<Seq<u8>>::empty()
            };
            job_run(reads + more, buffered, rows, image, density, quantity, handshake) == (
                lead + rest.0,
                rest.1,
            )
        }),
{
    let rest = page_run(more, after, rows, image, density, quantity, extended);
    if handshake {
        lemma_handshake_extend(reads, more, buffered);
        assert(Seq::<Seq<u8>>::empty() + more =~= more);
    } else {
        assert(reads + more =~= more);
        assert(Seq::<Seq<u8>>::empty() + rest.0 =~= rest.0);
    }
}

/// A page that went through and used up its reads is followed by the polls,
/// run on the reads that come after it.
pub(crate) proof fn lemma_page_then_polls(
    page_reads: Seq<Seq<u8>>,
    poll_reads: Seq<Seq<u8>>,
    buffered: Seq<u8>,
    rows: Seq<NiimbotPacket>,
    image: (u32, u32, Seq<u8>),
    density: u8,
    quantity: u16,
    extended: bool,
)
    requires
        run_requests(
            page_reads,
            buffered,
            page_requests(rows, image, density, quantity, extended),
        ).3 is None,
        run_requests(
            page_reads,
            buffered,
            page_requests(rows, image, density, quantity, extended),
        ).1.len() == 0,
    ensures
        ({
            let page = run_requests(
                page_reads,
                buffered,
                page_requests(rows, image, density, quantity, extended),
            );
            let polls = run_polls(poll_reads, page.2, 0);
            page_run(page_reads + poll_reads, buffered, rows, image, density, quantity, extended)
                == (page.0 + polls.0, polls.1)
        }),
{
    let requests = page_requests(rows, image, density, quantity, extended);
    lemma_requests_extend(page_reads, poll_reads, buffered, requests);
    let page = run_requests(page_reads, buffered, requests);
    assert(page.1 + poll_reads =~= poll_reads);
}

/// The byte strings that running requests writes are the first of those
/// requests, in order: at least one when there is one, and all of them when
/// every request went through.
pub proof fn lemma_requests_frames(
    reads: Seq<Seq<u8>>,
    buffered: Seq<u8>,
    requests: Seq<(Seq<u8>, Option<u8>)>,
)
    ensures
        ({
            let run = run_requests(reads, buffered, requests);
            &&& run.0.len() <= requests.len()
            &&& requests.len() > 0 ==> run.0.len() >= 1
            &&& run.3 is None ==> run.0.len() == requests.len()
            &&& forall|i: int| 0 <= i < run.0.len() ==> #[trigger] run.0[i] == requests[i].0
        }),
    decreases requests.len(),
{
    if requests.len() > 0 {
        let rest = requests.drop_first();
        let run = run_requests(reads, buffered, requests);
        match requests[0].1 {
            None => {
                lemma_requests_frames(reads, buffered, rest);
                let inner = run_requests(reads, buffered, rest);
                assert forall|i: int| 0 <= i < run.0.len() implies #[trigger] run.0[i]
                    == requests[i].0 by {
                    if i > 0 {
                        assert(run.0[i] == inner.0[i - 1]);
                        assert(rest[i - 1] == requests[i]);
                    }
                }
            },
            Some(code) => {
                let answer = exchange(buffered, reads, code, 6);
                let left = reads.skip(answer.0 as int);
                lemma_requests_frames(left, answer.1, rest);
                if answer.2 matches Some(Ok(_)) {
                    let inner = run_requests(left, answer.1, rest);
                    assert forall|i: int| 0 <= i < run.0.len() implies #[trigger] run.0[i]
                        == requests[i].0 by {
                        if i > 0 {
                            assert(run.0[i] == inner.0[i - 1]);
                            assert(rest[i - 1] == requests[i]);
                        }
                    }
                }
            },
        }
    }
}

/// The first frames of a page, whatever the printer answers: density `d` as
/// the frame of type 0x21 with payload `[d]`; label type 1 (type 0x23,
/// payload `[1]`); start of the job (type 0x01) with payload `[1]`, or in the
/// newer protocol the copy count as two big-endian bytes and seven zeros;
/// start of the page (type 0x03, payload `[1]`); the page size (type 0x13)
/// as height and width, each two big-endian bytes, followed in the newer
/// protocol by the copy count field. Each of them is written exactly when
/// the job got that far.
pub proof fn lemma_page_opening(
    reads: Seq<Seq<u8>>,
    buffered: Seq<u8>,
    rows: Seq<NiimbotPacket>,
    image: (u32, u32, Seq<u8>),
    density: u8,
    quantity: u16,
    extended: bool,
)
    requires
        image.0 < 65536,
        image.1 < 65536,
    ensures
        ({
            let written = page_run(reads, buffered, rows, image, density, quantity, extended).0;
            let copies = seq![
                (quantity / 256) as u8,
                (quantity % 256) as u8,
                0u8,
                0u8,
                0u8,
                0u8,
                0u8,
                0u8,
                0u8,
            ];
            let size = seq![
                (image.1 / 256) as u8,
                (image.1 % 256) as u8,
                (image.0 / 256) as u8,
                (image.0 % 256) as u8,
            ];
            &&& written.len() >= 1
            &&& written[0] == frame(0x21, seq![density])
            &&& written.len() > 1 ==> written[1] == frame(0x23, seq![1u8])
            &&& written.len() > 2 ==> written[2] == frame(
                0x01,
                if extended {
                    copies
                } else {
                    seq![1u8]
                },
            )
            &&& written.len() > 3 ==> written[3] == frame(0x03, seq![1u8])
            &&& written.len() > 4 ==> written[4] == frame(
                0x13,
                if extended {
                    size + copies
                } else {
                    size
                },
            )
        }),
{
    let requests = page_requests(rows, image, density, quantity, extended);
    let page = run_requests(reads, buffered, requests);
    lemma_requests_frames(reads, buffered, requests);
    assert(requests.len() == 6 + rows.len());
    let written = page_run(reads, buffered, rows, image, density, quantity, extended).0;
    assert forall|i: int| 0 <= i < written.len() && i < 5 implies written[i] == #[trigger] requests[i].0 by {
        if page.3 is None {
            assert(written[i] == page.0[i]);
        }
        assert(page.0[i] == requests[i].0);
    }
    let q = quantity;
    assert((q >> 8u16) as u8 == q / 256 && q as u8 == q % 256) by (bit_vector);
    let h = image.1 as u16;
    let w = image.0 as u16;
    assert((h >> 8u16) as u8 == h / 256 && h as u8 == h % 256) by (bit_vector);
    assert((w >> 8u16) as u8 == w / 256 && w as u8 == w % 256) by (bit_vector);
    let copies = seq![
        (quantity / 256) as u8,
        (quantity % 256) as u8,
        0u8,
        0u8,
        0u8,
        0u8,
        0u8,
        0u8,
        0u8,
    ];
    let size = seq![
        (image.1 / 256) as u8,
        (image.1 % 256) as u8,
        (image.0 / 256) as u8,
        (image.0 % 256) as u8,
    ];
    assert(crate::printer::copies_field(quantity) =~= copies);
    assert(crate::printer::be_bytes(h) + crate::printer::be_bytes(w) =~= size);
    assert(dimension_payload(h, w, quantity, extended) =~= if extended {
        size + copies
    } else {
        size
    });
    assert(requests[0].0 == frame(0x21, seq![density]));
    assert(requests[2].0 == frame(0x01, start_print_payload(quantity, extended)));
    assert(requests[4].0 == frame(0x13, dimension_payload(h, w, quantity, extended)));
}

/// Every byte string that polling writes asks whether the job has ended: the
/// frame of type 0xf3 with payload `[1]`; at least one is written unless the
/// count of polls is used up.
pub proof fn lemma_polls_frames(reads: Seq<Seq<u8>>, buffered: Seq<u8>, done: nat)
    ensures
        ({
            let run = run_polls(reads, buffered, done);
            &&& done < u64::MAX ==> run.0.len() >= 1
            &&& forall|i: int| 0 <= i < run.0.len() ==> #[trigger] run.0[i] == frame(
                0xf3,
                seq![1u8],
            )
        }),
    decreases u64::MAX - done,
{
    if done < u64::MAX {
        let answer = exchange(buffered, reads, reply_code(RequestCode::EndPrint, 1), 6);
        let run = run_polls(reads, buffered, done);
        if answer.2 matches Some(Ok(reply)) && !acknowledges(reply.1) {
            lemma_polls_frames(reads.skip(answer.0 as int), answer.1, done + 1);
            let rest = run_polls(reads.skip(answer.0 as int), answer.1, done + 1);
            assert forall|i: int| 0 <= i < run.0.len() implies #[trigger] run.0[i] == frame(
                0xf3,
                seq![1u8],
            ) by {
                if i > 0 {
                    assert(run.0[i] == rest.0[i - 1]);
                }
            }
        }
    }
}

/// The frames of a page after its opening, whatever the printer answers:
/// the packet of each row in order, the end of the page (type 0xe3, payload
/// `[1]`), then only requests asking whether the job has ended (type 0xf3,
/// payload `[1]`), at least one once the page went through. Each request of
/// the page waits for its reply, types 0x31, 0x33, 0x02, 0x04, 0x14 and, for
/// the end of the page, 0xe4; the rows wait for none.
pub proof fn lemma_page_rest(
    reads: Seq<Seq<u8>>,
    buffered: Seq<u8>,
    rows: Seq<NiimbotPacket>,
    image: (u32, u32, Seq<u8>),
    density: u8,
    quantity: u16,
    extended: bool,
)
    ensures
        ({
            let run = page_run(reads, buffered, rows, image, density, quantity, extended);
            let written = run.0;
            let requests = page_requests(rows, image, density, quantity, extended);
            let end = 5 + rows.len() as int;
            &&& forall|y: int|
                0 <= y < rows.len() && 5 + y < written.len() ==> written[5 + y] == frame(
                    (#[trigger] rows[y])@.0,
                    rows[y]@.1,
                )
            &&& end < written.len() ==> written[end] == frame(0xe3, seq![1u8])
            &&& forall|i: int| end < i < written.len() ==> #[trigger] written[i] == frame(
                0xf3,
                seq![1u8],
            )
            &&& run.1 == Some(Ok::<(), PrinterError>(())) ==> written.len() > end + 1
            &&& requests.len() == end + 1
            &&& requests[0].1 == Some(0x31u8)
            &&& requests[1].1 == Some(0x33u8)
            &&& requests[2].1 == Some(0x02u8)
            &&& requests[3].1 == Some(0x04u8)
            &&& requests[4].1 == Some(0x14u8)
            &&& forall|y: int| 0 <= y < rows.len() ==> (#[trigger] requests[5 + y]).1 is None
            &&& requests[end].1 == Some(0xe4u8)
        }),
{
    let requests = page_requests(rows, image, density, quantity, extended);
    let page = run_requests(reads, buffered, requests);
    let run = page_run(reads, buffered, rows, image, density, quantity, extended);
    let written = run.0;
    let end = 5 + rows.len() as int;
    lemma_requests_frames(reads, buffered, requests);
    assert(requests.len() == end + 1);
    assert forall|i: int| 0 <= i < written.len() && i <= end implies written[i]
        == #[trigger] requests[i].0 by {
        if page.3 is None {
            assert(written[i] == page.0[i]);
        }
        assert(page.0[i] == requests[i].0);
    }
    assert forall|y: int| 0 <= y < rows.len() && 5 + y < written.len() implies written[5 + y]
        == frame((#[trigger] rows[y])@.0, rows[y]@.1) by {
        assert(requests[5 + y].0 == frame(rows[y]@.0, rows[y]@.1));
    }
    assert forall|y: int| 0 <= y < rows.len() implies (#[trigger] requests[5 + y]).1 is None by {
        assert(requests[5 + y] == (frame(rows[y]@.0, rows[y]@.1), None::<u8>));
    }
    if page.3 is None {
        let polls = run_polls(page.1, page.2, 0);
        lemma_polls_frames(page.1, page.2, 0);
        assert forall|i: int| end < i < written.len() implies #[trigger] written[i] == frame(
            0xf3,
            seq![1u8],
        ) by {
            assert(written[i] == polls.0[i - page.0.len()]);
        }
    }
}

/// The first frames of a print job: over a link that needs the handshake,
/// the connect frame (type 0xc1, payload `[1]`) behind the byte 3, then the
/// status request (type 0xa5, payload `[1]`), then the page; otherwise the
/// page in the older protocol. The page starts with the density (see
/// [`lemma_page_opening`]).
pub proof fn lemma_job_opening(
    reads: Seq<Seq<u8>>,
    buffered: Seq<u8>,
    rows: Seq<NiimbotPacket>,
    image: (u32, u32, Seq<u8>),
    density: u8,
    quantity: u16,
    handshake: bool,
)
    requires
        image.0 < 65536,
        image.1 < 65536,
    ensures
        ({
            let written = job_run(reads, buffered, rows, image, density, quantity, handshake).0;
            &&& written.len() >= 1
            &&& !handshake ==> written == page_run(reads, buffered, rows, image, density, quantity, false).0
            &&& !handshake ==> written[0] == frame(0x21, seq![density])
            &&& handshake ==> written[0] == seq![3u8] + frame(0xc1, seq![1u8])
            &&& handshake && written.len() > 1 ==> written[1] == frame(0xa5, seq![1u8])
            &&& handshake && written.len() > 2 ==> written[2] == frame(0x21, seq![density])
            &&& handshake && written.len() > 2 ==> (handshake_run(reads, buffered).3 matches Some(
                Ok(extended),
            ) && written.skip(2) == page_run(
                handshake_run(reads, buffered).1,
                handshake_run(reads, buffered).2,
                rows,
                image,
                density,
                quantity,
                extended,
            ).0)
        }),
{
    if handshake {
        let opening = handshake_run(reads, buffered);
        let written = job_run(reads, buffered, rows, image, density, quantity, handshake).0;
        assert(opening.0.len() >= 1);
        if opening.3 is Some && opening.3->0 is Ok {
            let extended = opening.3->0->Ok_0;
            lemma_page_opening(opening.1, opening.2, rows, image, density, quantity, extended);
            let page = page_run(opening.1, opening.2, rows, image, density, quantity, extended).0;
            assert(written == handshake_frames() + page);
            assert(written.skip(2) =~= page);
            assert(written[2] == page[0]);
        }
    } else {
        lemma_page_opening(reads, buffered, rows, image, density, quantity, false);
    }
}

} // verus!

//! What a run says, message by message, and what is printed of it.
use crate::cli::{Printed, Report};
use crate::dct_backend::{ComputeBackend, DctAlgorithm};
use crate::media_backend::PipelineMsg;
use crate::pipeline::EncodeRun;
use vstd::prelude::*;

verus! {

/// A run starts with a line that names the compute backend and the algorithm, as
/// they are shown to the user.
pub proof fn law_run_starts_with_its_choices(
    compute: ComputeBackend,
    algorithm: DctAlgorithm,
    backend_label: &'static str,
    algorithm_label: &'static str,
    res: (EncodeRun, PipelineMsg),
)
    requires
        call_ensures(ComputeBackend::label, (&compute,), backend_label),
        call_ensures(DctAlgorithm::label, (&algorithm,), algorithm_label),
        call_ensures(EncodeRun::start, (compute, algorithm), res),
    ensures
        res.1 matches PipelineMsg::Log(line) && line@ == "initializing "@ + backend_label@
            + " DCT backend ("@ + algorithm_label@ + ")..."@,
        res.0.frames() == 0,
        res.0.total() == 0,
        res.0.phase() is Opening,
{
}

/// Frames are counted one by one, and reported with the total that is known then;
/// nothing is reported of a run that is not running, and nothing counted.
pub proof fn law_frames_are_counted(res: Option<PipelineMsg>)
    ensures
        forall|run: &mut EncodeRun|
            #[trigger] call_ensures(EncodeRun::frame_done, (run,), res) ==> {
                &&& res is Some <==> (*run).phase() is Running
                &&& res is Some ==> {
                    &&& (*final(run)).frames() == (*run).frames() + 1
                    &&& res->Some_0 is Progress
                    &&& res->Some_0->current == (*final(run)).frames()
                    &&& res->Some_0->total == (*run).total()
                }
                &&& res is None ==> (*final(run)).frames() == (*run).frames()
                &&& (*final(run)).total() == (*run).total()
                &&& (*final(run)).phase() == (*run).phase()
            },
{
}

/// Opening the input takes a run from its opening to its running phase, once.
pub proof fn law_input_is_opened_once(res: Option<PipelineMsg>)
    ensures
        forall|run: &mut EncodeRun|
            #[trigger] call_ensures(EncodeRun::open_input, (run,), res) ==> {
                &&& res is Some <==> (*run).phase() is Opening
                &&& (*final(run)).phase() == (if (*run).phase() is Opening {
                    crate::pipeline::RunPhase::Running
                } else {
                    (*run).phase()
                })
                &&& res is Some ==> res->Some_0 is Log && res->Some_0->Log_0@ == "opening input..."@
                &&& (*final(run)).frames() == (*run).frames()
            },
{
}

/// A line is logged as it is while a run is running, and the total is what it was
/// last set to.
pub proof fn law_lines_and_totals_are_kept(line: String, res: Option<PipelineMsg>, total: u64)
    ensures
        forall|run: &mut EncodeRun|
            #[trigger] call_ensures(EncodeRun::log, (run, line), res) ==> {
                &&& res is Some <==> (*run).phase() is Running
                &&& res is Some ==> res->Some_0 is Log && res->Some_0->Log_0@ == line@
                &&& (*final(run)).phase() == (*run).phase()
                &&& (*final(run)).frames() == (*run).frames()
                &&& (*final(run)).total() == (*run).total()
            },
        forall|run: &mut EncodeRun|
            #[trigger] call_ensures(EncodeRun::set_total, (run, total), ()) ==> {
                &&& (*final(run)).total() == total
                &&& (*final(run)).frames() == (*run).frames()
                &&& (*final(run)).phase() == (*run).phase()
            },
{
}

/// The line says that so many frames were written, and where.
pub open spec fn says_written(line: Seq<char>, count: Seq<char>, output: Seq<char>) -> bool {
    line == "wrote "@ + count + " frames to "@ + output
}

/// A run that went well ends with a line that reads back as the number of frames
/// it counted and names the output, and then says that it is done; one that did
/// not ends with its error alone; and a run that has ended says nothing more.
pub proof fn law_run_ends_with_its_result(
    outcome: Result<(), String>,
    output: &str,
    msgs: Vec<PipelineMsg>,
)
    ensures
        forall|run: &mut EncodeRun|
            #[trigger] call_ensures(EncodeRun::conclude, (run, outcome, output), msgs) ==> {
                &&& (*final(run)).phase() is Ended
                &&& (*run).phase() is Ended ==> msgs@.len() == 0
                &&& !((*run).phase() is Ended) && outcome is Ok ==> {
                    &&& msgs@.len() == 2
                    &&& msgs@[0] is Log
                    &&& msgs@[1] is Done
                    &&& exists|count: Seq<char>|
                        {
                            &&& crate::text_laws::read_decimal(count) == (*run).frames()
                            &&& #[trigger] says_written(msgs@[0]->Log_0@, count, output@)
                        }
                }
                &&& !((*run).phase() is Ended) && outcome is Err ==> {
                    &&& msgs@.len() == 1
                    &&& msgs@[0] is Error
                    &&& msgs@[0]->Error_0@ == outcome->Err_0@
                }
            },
{
    assert forall|run: &mut EncodeRun|
        #[trigger] call_ensures(EncodeRun::conclude, (run, outcome, output), msgs) implies {
        &&& (*final(run)).phase() is Ended
        &&& (*run).phase() is Ended ==> msgs@.len() == 0
        &&& !((*run).phase() is Ended) && outcome is Ok ==> {
            &&& msgs@.len() == 2
            &&& msgs@[0] is Log
            &&& msgs@[1] is Done
            &&& exists|count: Seq<char>|
                {
                    &&& crate::text_laws::read_decimal(count) == (*run).frames()
                    &&& #[trigger] says_written(msgs@[0]->Log_0@, count, output@)
                }
        }
        &&& !((*run).phase() is Ended) && outcome is Err ==> {
            &&& msgs@.len() == 1
            &&& msgs@[0] is Error
            &&& msgs@[0]->Error_0@ == outcome->Err_0@
        }
    } by {
        let views = crate::pipeline::msg_views(msgs@);
        assert(views.len() == msgs@.len());
        if !((*run).phase() is Ended) {
            let frames = (*run).frames();
            assert(views[0] == msgs@[0]@);
            if outcome is Ok {
                assert(views[1] == msgs@[1]@);
                crate::text_laws::law_decimal_reads_back(frames as nat);
                assert(says_written(
                    msgs@[0]->Log_0@,
                    crate::text::decimal(frames as nat),
                    output@,
                ));
            }
        }
    }
}

/// A failure to build the compute backend is the failure of the run; else the run
/// goes as the media backend, handed the one that was built, says.
pub proof fn law_run_goes_as_its_parts<
    B,
    F: FnOnce() -> Result<B, String>,
    G: FnOnce(B) -> Result<(), String>,
>(build: F, encode: G, res: Result<(), String>)
    requires
        call_ensures(crate::pipeline::run::<B, F, G>, (build, encode), res),
    ensures
        (exists|e: String|
            #[trigger] call_ensures(build, (), Err::<B, String>(e)) && res
                == Err::<(), String>(e)) || (exists|backend: B|
            #[trigger] call_ensures(build, (), Ok::<B, String>(backend)) && call_ensures(
                encode,
                (backend,),
                res,
            )),
{
    let built = choose|built: Result<B, String>|
        {
            &&& #[trigger] call_ensures(build, (), built)
            &&& match built {
                Ok(backend) => call_ensures(encode, (backend,), res),
                Err(e) => res matches Err(error) && error == e,
            }
        };
    match built {
        Ok(backend) => assert(call_ensures(build, (), Ok::<B, String>(backend))),
        Err(e) => assert(call_ensures(build, (), Err::<B, String>(e))),
    }
}

/// A frame, of so many or of nobody knows how many.
pub open spec fn progress_text(current: Seq<char>, total: Seq<char>, known: u64) -> Seq<char> {
    if known > 0 {
        "\rframe "@ + current + "/"@ + total
    } else {
        "\rframe "@ + current + " (total unknown)"@
    }
}

/// The text goes over the line it stands on, and names the frame, and the total
/// where there is one, in numbers that read back.
pub open spec fn shows_progress(text: Seq<char>, current: u64, total: u64) -> bool {
    exists|c: Seq<char>, t: Seq<char>|
        {
            &&& crate::text_laws::read_decimal(c) == current
            &&& crate::text_laws::read_decimal(t) == total
            &&& text == #[trigger] progress_text(c, t, total)
        }
}

/// What is printed of progress shows it.
proof fn lemma_shows_progress(current: u64, total: u64)
    ensures
        shows_progress(
            crate::cli::printed_for(
                crate::media_backend::MsgView::Progress { current, total },
            ).1,
            current,
            total,
        ),
{
    let text = crate::cli::printed_for(
        crate::media_backend::MsgView::Progress { current, total },
    ).1;
    crate::text_laws::law_decimal_reads_back(current as nat);
    crate::text_laws::law_decimal_reads_back(total as nat);
    let (c, t) = (crate::text::decimal(current as nat), crate::text::decimal(total as nat));
    assert(text =~= progress_text(c, t, total));
}

/// What is printed of a message: errors go to the error stream and nothing else
/// does. Progress goes over the line it stands on, with numbers that read back,
/// the total where there is one; anything else is printed as it is, on a line of
/// its own. An error is remembered, and nothing else changes what is.
pub proof fn law_messages_are_printed(msg: &PipelineMsg, p: Printed)
    ensures
        forall|report: &mut Report|
            #[trigger] call_ensures(Report::show, (report, msg), p) ==> {
                &&& p.stream is Stderr <==> *msg is Error
                &&& (*final(report)).failed() <==> (*report).failed() || *msg is Error
                &&& *msg is Log ==> p.text@ == "\n"@ + msg->Log_0@ + "\n"@
                &&& *msg is Done ==> p.text@ == "\ndone\n"@
                &&& *msg is Error ==> p.text@ == "\nerror: "@ + msg->Error_0@ + "\n"@
                &&& *msg is Progress ==> shows_progress(p.text@, msg->current, msg->total)
            },
{
    if let PipelineMsg::Progress { current, total } = *msg {
        lemma_shows_progress(current, total);
    }
}

/// A run exits with 1 if an error was shown, and with 0 if none was; a fresh
/// report has seen none.
pub proof fn law_exit_code_tells_of_errors(report: &Report, code: i32, fresh: Report)
    requires
        call_ensures(Report::exit_code, (report,), code),
        call_ensures(Report::new, (), fresh),
    ensures
        code == 1 <==> report.failed(),
        code == 0 <==> !report.failed(),
        !fresh.failed(),
{
}

/// Over a whole run: the report has failed exactly if one of its messages was an
/// error, however many came behind it.
pub proof fn law_one_error_fails_the_report(
    reports: Seq<Report>,
    msgs: Seq<PipelineMsg>,
    printed: Seq<Printed>,
)
    requires
        reports.len() == msgs.len() + 1,
        printed.len() == msgs.len(),
        call_ensures(Report::new, (), reports[0]),
        forall|k: int|
            #![trigger msgs[k]]
            0 <= k < msgs.len() ==> exists|r: &mut Report|
                *r == reports[k] && *final(r) == reports[k + 1] && #[trigger] call_ensures(
                    Report::show,
                    (r, &msgs[k]),
                    printed[k],
                ),
    ensures
        reports.last().failed() <==> exists|k: int| 0 <= k < msgs.len() && #[trigger] msgs[k] is Error,
{
    assert forall|k: int| 0 <= k < msgs.len() implies reports[k + 1].failed() == (
    reports[k].failed() || #[trigger] msgs[k] is Error) by {
        let r = choose|r: &mut Report|
            *r == reports[k] && *final(r) == reports[k + 1] && #[trigger] call_ensures(
                Report::show,
                (r, &msgs[k]),
                printed[k],
            );
    }
    lemma_failed(reports, msgs, msgs.len() as int);
}

/// A report after `n` messages.
proof fn lemma_failed(reports: Seq<Report>, msgs: Seq<PipelineMsg>, n: int)
    requires
        0 <= n <= msgs.len(),
        !reports[0].failed(),
        forall|k: int|
            0 <= k < msgs.len() ==> reports[k + 1].failed() == (reports[k].failed()
                || #[trigger] msgs[k] is Error),
    ensures
        reports[n].failed() <==> exists|k: int| 0 <= k < n && #[trigger] msgs[k] is Error,
    decreases n,
{
    if n > 0 {
        lemma_failed(reports, msgs, n - 1);
        assert(reports[n - 1 + 1].failed() == (reports[n - 1].failed() || msgs[n - 1] is Error));
        if reports[n - 1].failed() {
            let k = choose|k: int| 0 <= k < n - 1 && #[trigger] msgs[k] is Error;
            assert(msgs[k] is Error);
        }
        if exists|k: int| 0 <= k < n && #[trigger] msgs[k] is Error {
            let k = choose|k: int| 0 <= k < n && #[trigger] msgs[k] is Error;
            if k < n - 1 {
                assert(msgs[k] is Error);
            }
        }
    }
}

} // verus!

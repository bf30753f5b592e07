//! Classifies the outcome of each link check and gathers the broken links.
use vstd::prelude::*;

verus! {

/// The HTTP status that marks a link as reachable.
pub const STATUS_OK: u16 = 200;

/// How a link fared.
pub enum LinkStatus {
    /// The request was answered with status 200.
    Reachable,
    /// The request was answered with another status.
    HttpError(u16),
    /// No answer came: the request failed on the way, for the reason given.
    NetworkError(String),
}

/// A link together with how its check fared.
pub struct CheckResult {
    pub link: String,
    pub status: LinkStatus,
}

/// A link is broken unless its request was answered with status 200.
pub open spec fn is_broken(s: LinkStatus) -> bool {
    !(s is Reachable)
}

/// The status that the outcome of a request gives: the answer's status code, or the
/// description of the failure that stopped it.
pub open spec fn status_of(outcome: Result<u16, String>) -> LinkStatus {
    match outcome {
        Ok(code) => if code == STATUS_OK {
            LinkStatus::Reachable
        } else {
            LinkStatus::HttpError(code)
        },
        Err(reason) => LinkStatus::NetworkError(reason),
    }
}

/// Turns the outcome of a request for `link` into its check result: exactly status 200
/// is reachable; any other status, and any failure, is broken.
pub fn classify(link: String, outcome: Result<u16, String>) -> (r: CheckResult)
    ensures
        r.link == link,
        r.status == status_of(outcome),
        is_broken(r.status) <==> !(outcome == Ok::<u16, String>(STATUS_OK)),
{
    let status = match outcome {
        Ok(code) => if code == STATUS_OK {
            LinkStatus::Reachable
        } else {
            LinkStatus::HttpError(code)
        },
        Err(reason) => LinkStatus::NetworkError(reason),
    };
    CheckResult { link, status }
}

/// Tells whether a check result marks its link as broken.
pub fn is_broken_result(r: &CheckResult) -> (b: bool)
    ensures
        b == is_broken(r.status),
{
    match r.status {
        LinkStatus::Reachable => false,
        _ => true,
    }
}

/// The results in `rs` whose links are broken, in their order.
pub open spec fn broken_of(rs: Seq<CheckResult>) -> Seq<CheckResult>
    decreases rs.len(),
{
    if rs.len() == 0 {
        seq![]
    } else if is_broken(rs.last().status) {
        broken_of(rs.drop_last()).push(rs.last())
    } else {
        broken_of(rs.drop_last())
    }
}

/// Keeps the results whose links are broken, in their order.
pub fn broken_links(results: Vec<CheckResult>) -> (r: Vec<CheckResult>)
    ensures
        r@ == broken_of(results@),
{
    let ghost all = results@;
    let mut out: Vec<CheckResult> = Vec::new();
    for c in it: results
        invariant
            it.seq() == all,
            out@ == broken_of(all.take(it.index())),
    {
        let ghost i = it.index();
        assert(all.take(i + 1).drop_last() =~= all.take(i));
        assert(all.take(i + 1).last() == c);
        if is_broken_result(&c) {
            out.push(c);
        }
    }
    assert(all.take(all.len() as int) =~= all);
    out
}

} // verus!

verus! {

proof fn lemma_broken_of_members(rs: Seq<CheckResult>)
    ensures
        forall|x: CheckResult| #[trigger]
            broken_of(rs).contains(x) <==> rs.contains(x) && is_broken(x.status),
    decreases rs.len(),
{
    if rs.len() > 0 {
        let init = rs.drop_last();
        let last = rs.last();
        let b = broken_of(init);
        lemma_broken_of_members(init);
        assert(rs[rs.len() - 1] == last);
        assert forall|x: CheckResult| #[trigger]
            broken_of(rs).contains(x) <==> rs.contains(x) && is_broken(x.status) by {
            if rs.contains(x) && x != last {
                let k = choose|k: int| 0 <= k < rs.len() && rs[k] == x;
                assert(init[k] == x);
            }
            if init.contains(x) {
                let k = choose|k: int| 0 <= k < init.len() && init[k] == x;
                assert(rs[k] == x);
            }
            if is_broken(last.status) {
                assert(b.push(last)[b.len() as int] == last);
                if b.push(last).contains(x) && x != last {
                    let k = choose|k: int| 0 <= k < b.push(last).len() && b.push(last)[k] == x;
                    assert(b[k] == x);
                }
                if b.contains(x) {
                    let k = choose|k: int| 0 <= k < b.len() && b[k] == x;
                    assert(b.push(last)[k] == x);
                }
            }
        }
    }
}

/// A request answered with status 200 makes its link reachable; any other status, or a
/// failure before an answer, makes it broken.
pub proof fn lemma_only_ok_is_reachable(outcome: Result<u16, String>)
    ensures
        is_broken(status_of(outcome)) <==> outcome != Ok::<u16, String>(STATUS_OK),
        outcome == Ok::<u16, String>(STATUS_OK) ==> status_of(outcome) is Reachable,
{
}

/// The report of broken links holds each result whose link is broken, and no result
/// whose link is reachable.
pub proof fn lemma_report_exact(rs: Seq<CheckResult>, k: int)
    requires
        0 <= k < rs.len(),
    ensures
        broken_of(rs).contains(rs[k]) <==> is_broken(rs[k].status),
        forall|x: CheckResult| #[trigger] broken_of(rs).contains(x) ==> !(x.status is Reachable),
{
    lemma_broken_of_members(rs);
}

/// The report is empty exactly when no link is broken; `exit_code` gives 0 for an
/// empty report and 1 for any other.
pub proof fn lemma_report_empty_iff_all_reachable(rs: Seq<CheckResult>)
    ensures
        broken_of(rs).len() == 0 <==> forall|k: int| 0 <= k < rs.len() ==> !is_broken(#[trigger] rs[k].status),
{
    lemma_broken_of_members(rs);
    if broken_of(rs).len() > 0 {
        let x = broken_of(rs)[0];
        assert(broken_of(rs).contains(x));
        let k = choose|k: int| 0 <= k < rs.len() && rs[k] == x;
        assert(is_broken(rs[k].status));
    }
    if exists|k: int| 0 <= k < rs.len() && is_broken(#[trigger] rs[k].status) {
        let k = choose|k: int| 0 <= k < rs.len() && is_broken(#[trigger] rs[k].status);
        assert(rs.contains(rs[k]));
        assert(broken_of(rs).contains(rs[k]));
    }
}

} // verus!

//! What counts as a request in an environment, and how one starts.
use crate::error::ErrorView;
use crate::fs_approval::{
    law_requests_by_position, request_lead, requests, Answer, AnswerView, Progress, Question,
    QuestionView, TOOL_SANDBOX_FS_REQUEST_ENV,
};
use crate::fs_model::{setup_of, started, ProgressView};
use crate::policy::CommandApprovalFilesystemConfig;
use vstd::prelude::*;
use vstd::utf8::{encode_utf8, is_ascii_chars, is_ascii_chars_encode_utf8};

verus! {

/// An entry with a request starts with the bytes of the name
/// `NONO_TOOL_SANDBOX_FS_REQUEST` and of `=`.
pub proof fn law_request_lead()
    ensures
        request_lead() == seq![
            0x4eu8, 0x4fu8, 0x4eu8, 0x4fu8, 0x5fu8, 0x54u8, 0x4fu8, 0x4fu8,
            0x4cu8, 0x5fu8, 0x53u8, 0x41u8, 0x4eu8, 0x44u8, 0x42u8, 0x4fu8,
            0x58u8, 0x5fu8, 0x46u8, 0x53u8, 0x5fu8, 0x52u8, 0x45u8, 0x51u8,
            0x55u8, 0x45u8, 0x53u8, 0x54u8, 0x3du8,
        ],
{
    let name = TOOL_SANDBOX_FS_REQUEST_ENV@;
    reveal_strlit("NONO_TOOL_SANDBOX_FS_REQUEST");
    assert(is_ascii_chars(name));
    is_ascii_chars_encode_utf8(name);
    let bytes = encode_utf8(name);
    assert(bytes.len() == 28);
    assert forall|i: int| 0 <= i < 28 implies bytes[i] == #[trigger] name[i] as u8 by {}
    assert(name[0] as u8 == 0x4eu8);
    assert(name[1] as u8 == 0x4fu8);
    assert(name[2] as u8 == 0x4eu8);
    assert(name[3] as u8 == 0x4fu8);
    assert(name[4] as u8 == 0x5fu8);
    assert(name[5] as u8 == 0x54u8);
    assert(name[6] as u8 == 0x4fu8);
    assert(name[7] as u8 == 0x4fu8);
    assert(name[8] as u8 == 0x4cu8);
    assert(name[9] as u8 == 0x5fu8);
    assert(name[10] as u8 == 0x53u8);
    assert(name[11] as u8 == 0x41u8);
    assert(name[12] as u8 == 0x4eu8);
    assert(name[13] as u8 == 0x44u8);
    assert(name[14] as u8 == 0x42u8);
    assert(name[15] as u8 == 0x4fu8);
    assert(name[16] as u8 == 0x58u8);
    assert(name[17] as u8 == 0x5fu8);
    assert(name[18] as u8 == 0x46u8);
    assert(name[19] as u8 == 0x53u8);
    assert(name[20] as u8 == 0x5fu8);
    assert(name[21] as u8 == 0x52u8);
    assert(name[22] as u8 == 0x45u8);
    assert(name[23] as u8 == 0x51u8);
    assert(name[24] as u8 == 0x55u8);
    assert(name[25] as u8 == 0x45u8);
    assert(name[26] as u8 == 0x53u8);
    assert(name[27] as u8 == 0x54u8);
    assert(request_lead() =~= seq![
            0x4eu8, 0x4fu8, 0x4eu8, 0x4fu8, 0x5fu8, 0x54u8, 0x4fu8, 0x4fu8,
            0x4cu8, 0x5fu8, 0x53u8, 0x41u8, 0x4eu8, 0x44u8, 0x42u8, 0x4fu8,
            0x58u8, 0x5fu8, 0x46u8, 0x53u8, 0x5fu8, 0x52u8, 0x45u8, 0x51u8,
            0x55u8, 0x45u8, 0x53u8, 0x54u8, 0x3du8,
    ]);
}

/// The requests of two environments in a row are those of the one and then those
/// of the other.
pub proof fn law_requests_add_up(first: Seq<Seq<u8>>, second: Seq<Seq<u8>>)
    ensures
        requests(first + second) == requests(first) + requests(second),
    decreases second.len(),
{
    let both = first + second;
    if second.len() == 0 {
        assert(both =~= first);
        assert(requests(first) + requests(second) =~= requests(first));
    } else {
        assert(both.drop_last() =~= first + second.drop_last());
        assert(both.last() == second.last());
        law_requests_add_up(first, second.drop_last());
        assert(requests(both) =~= requests(first) + requests(second));
    }
}

/// Other variables do not matter: wherever they stand and however many there are,
/// an environment with them has the requests that it has without them.
pub proof fn law_other_variables(
    before: Seq<Seq<u8>>,
    others: Seq<Seq<u8>>,
    after: Seq<Seq<u8>>,
)
    requires
        forall|i: int| 0 <= i < others.len() ==> !request_lead().is_prefix_of(#[trigger] others[i]),
    ensures
        requests(before + others + after) == requests(before + after),
{
    law_requests_by_position(others);
    law_requests_add_up(before + others, after);
    law_requests_add_up(before, others);
    law_requests_add_up(before, after);
    assert(requests(others) =~= Seq::<Seq<u8>>::empty());
    assert(requests(before) + requests(others) =~= requests(before));
}

/// The order of the variables does not matter either: two environments that hold
/// the same entries, each as often as the other, both have no request, both have
/// the same one, or both have more than one.
pub proof fn law_order_of_variables(
    left: Seq<Seq<u8>>,
    right: Seq<Seq<u8>>,
    place: spec_fn(int) -> int,
    back: spec_fn(int) -> int,
)
    requires
        left.len() == right.len(),
        forall|i: int|
            0 <= i < left.len() ==> 0 <= #[trigger] place(i) < right.len() && right[place(i)]
                == left[i],
        forall|i: int| 0 <= i < left.len() ==> back(#[trigger] place(i)) == i,
        forall|k: int|
            0 <= k < right.len() ==> 0 <= #[trigger] back(k) < left.len() && place(back(k)) == k,
    ensures
        requests(left).len() == 0 <==> requests(right).len() == 0,
        requests(left).len() > 1 <==> requests(right).len() > 1,
        requests(left).len() == 1 ==> requests(left) == requests(right),
{
    let lead = request_lead();
    law_requests_by_position(left);
    law_requests_by_position(right);
    if requests(left).len() > 0 {
        let i = choose|i: int| 0 <= i < left.len() && lead.is_prefix_of(#[trigger] left[i]);
        assert(lead.is_prefix_of(right[place(i)]));
    }
    if requests(right).len() > 0 {
        let k = choose|k: int| 0 <= k < right.len() && lead.is_prefix_of(#[trigger] right[k]);
        let i = back(k);
        assert(place(i) == k && lead.is_prefix_of(left[i]));
    }
    if requests(left).len() > 1 {
        let (i, j) = choose|i: int, j: int|
            0 <= i < j < left.len() && lead.is_prefix_of(#[trigger] left[i]) && lead.is_prefix_of(
                #[trigger] left[j],
            );
        assert(lead.is_prefix_of(right[place(i)]) && lead.is_prefix_of(right[place(j)]));
        assert(place(i) < place(j) || place(j) < place(i));
    }
    if requests(right).len() > 1 {
        let (k, l) = choose|k: int, l: int|
            0 <= k < l < right.len() && lead.is_prefix_of(#[trigger] right[k]) && lead.is_prefix_of(
                #[trigger] right[l],
            );
        let i = back(k);
        let j = back(l);
        assert(place(i) == k && place(j) == l);
        assert(lead.is_prefix_of(left[i]) && lead.is_prefix_of(left[j]));
        assert(i < j || j < i);
    }
    if requests(left).len() == 1 {
        let i = choose|i: int|
            0 <= i < left.len() && #[trigger] left[i] == lead + requests(left)[0] && forall|j: int|
                0 <= j < left.len() && j != i ==> !lead.is_prefix_of(#[trigger] left[j]);
        let text = requests(left)[0];
        assert(lead =~= left[i].subrange(0, lead.len() as int));
        assert(left[i].skip(lead.len() as int) =~= text);
        assert(requests(left) =~= seq![text]);
        let k = place(i);
        assert forall|l: int| 0 <= l < right.len() && l != k implies !lead.is_prefix_of(
            #[trigger] right[l],
        ) by {
            let j = back(l);
            assert(place(j) == l && right[l] == left[j]);
        }
        assert(lead.is_prefix_of(right[k]));
    }
}

/// How a resolution starts. Where no entry of the environment holds a request,
/// nothing is granted; where two do, that is refused; where one does and there is
/// no ceiling, that is refused; and else the first question is what the request
/// asks for, that is what follows the `=`.
pub proof fn law_start(
    env: Seq<Seq<u8>>,
    request_cwd: Seq<u8>,
    ceiling: Option<CommandApprovalFilesystemConfig>,
    policy_root: Seq<u8>,
    deny_paths: Seq<Seq<u8>>,
)
    ensures
        ({
            let start = started(env, request_cwd, ceiling, policy_root, deny_paths);
            &&& (forall|i: int|
                0 <= i < env.len() ==> !request_lead().is_prefix_of(#[trigger] env[i])) ==> start
                == ProgressView::Done(Ok(Seq::empty()))
            &&& (exists|i: int, j: int|
                0 <= i < j < env.len() && request_lead().is_prefix_of(#[trigger] env[i])
                    && request_lead().is_prefix_of(#[trigger] env[j])) ==> start
                == ProgressView::Done(Err(ErrorView::DuplicateRequest))
            &&& forall|i: int|
                0 <= i < env.len() && request_lead().is_prefix_of(#[trigger] env[i]) && (forall|
                    j: int,
                |
                    0 <= j < env.len() && j != i ==> !request_lead().is_prefix_of(
                        #[trigger] env[j],
                    )) ==> match ceiling {
                    None => start == ProgressView::Done(Err(ErrorView::NoCeiling)),
                    Some(ceiling) => {
                        &&& start matches ProgressView::Pending(state)
                        &&& state.question() == QuestionView::Envelope(
                            env[i].skip(request_lead().len() as int),
                        )
                        &&& state.work.setup.request_cwd == request_cwd
                        &&& state.work.setup.policy_root == policy_root
                        &&& state.work.setup.deny_paths == deny_paths
                        &&& state.work.setup.read_entries.len() == ceiling.read_roots@.len()
                        &&& state.work.setup.write_entries.len() == ceiling.write_roots@.len()
                        &&& forall|k: int|
                            0 <= k < ceiling.read_roots@.len()
                                ==> #[trigger] state.work.setup.read_entries[k]
                                == ceiling.read_roots@[k]@
                        &&& forall|k: int|
                            0 <= k < ceiling.write_roots@.len()
                                ==> #[trigger] state.work.setup.write_entries[k]
                                == ceiling.write_roots@[k]@
                        &&& state.work.grants.len() == 0
                        &&& state.work.read_roots.len() == 0
                        &&& state.work.write_roots.len() == 0
                    },
                }
        }),
{
    law_requests_by_position(env);
}

/// What a request is held against is what it is given: the entries of the ceiling
/// in their order, and the paths as they stand.
pub proof fn law_setup(
    request_cwd: Seq<u8>,
    ceiling: CommandApprovalFilesystemConfig,
    policy_root: Seq<u8>,
    deny_paths: Seq<Seq<u8>>,
)
    ensures
        ({
            let setup = setup_of(request_cwd, ceiling, policy_root, deny_paths);
            &&& setup.request_cwd == request_cwd
            &&& setup.policy_root == policy_root
            &&& setup.deny_paths == deny_paths
            &&& setup.read_entries.len() == ceiling.read_roots@.len()
            &&& setup.write_entries.len() == ceiling.write_roots@.len()
            &&& forall|i: int|
                0 <= i < setup.read_entries.len() ==> #[trigger] setup.read_entries[i]
                    == ceiling.read_roots@[i]@
            &&& forall|i: int|
                0 <= i < setup.write_entries.len() ==> #[trigger] setup.write_entries[i]
                    == ceiling.write_roots@[i]@
        }),
{
}

/// The contents of questions, answers and what a resolution has come to are those
/// of their fields.
pub proof fn law_contents_of_resolutions(question: Question, answer: Answer, progress: Progress<'_>)
    ensures
        match question {
            Question::Envelope(text) => question@ == QuestionView::Envelope(text@),
            Question::Canonicalize(path) => question@ == QuestionView::Canonicalize(path@),
            Question::Expand { entry, policy_root } => question@ == (QuestionView::Expand {
                entry: entry@,
                policy_root: policy_root@,
            }),
            Question::Inspect(path) => question@ == QuestionView::Inspect(path@),
        },
        match answer {
            Answer::Envelope(Ok(envelope)) => answer@ == AnswerView::Envelope(Ok(envelope@)),
            Answer::Envelope(Err(message)) => answer@ == AnswerView::Envelope(Err(message@)),
            Answer::Canonical(Some(path)) => answer@ == AnswerView::Canonical(Some(path@)),
            Answer::Canonical(None) => answer@ == AnswerView::Canonical(None),
            Answer::Expanded(Some(path)) => answer@ == AnswerView::Expanded(Some(path@)),
            Answer::Expanded(None) => answer@ == AnswerView::Expanded(None),
            Answer::Inspected(found) => answer@ == AnswerView::Inspected(found),
        },
        match progress {
            Progress::Pending(resolution) => progress@ == ProgressView::Pending(resolution@),
            Progress::Done(Ok(grants)) => progress@ matches ProgressView::Done(Ok(list))
                && list.len() == grants@.len() && forall|i: int|
                0 <= i < list.len() ==> (#[trigger] list[i]).path == grants@[i].path@
                    && list[i].access == grants@[i].access && list[i].kind == grants@[i].kind,
            Progress::Done(Err(error)) => progress@ == ProgressView::Done(Err(error@)),
        },
{
}

} // verus!

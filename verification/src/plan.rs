//! The execution plan: given a pipeline of stages and the file
//! descriptors of the pipes connecting them, this module computes, as
//! plain data, the exact list of descriptor actions each process must
//! perform. An unverified interpreter only has to perform the actions
//! in order; which descriptors are duplicated, redirected and closed —
//! the part of a shell that is easy to get wrong — is decided and
//! proved here.

use vstd::prelude::*;
use crate::parser::Command;
use crate::parser::CommandView;

verus! {

/// The two file descriptors of one anonymous pipe.
#[derive(Debug, Clone, Copy, PartialEq, Eq)]
pub struct PipeEnds {
    pub read_fd: i32,
    pub write_fd: i32,
}

/// The mathematical model of a pipe: its two descriptors as integers.
#[verifier::ext_equal]
pub ghost struct PipeView {
    pub read_fd: int,
    pub write_fd: int,
}

impl View for PipeEnds {
    type V = PipeView;

    open spec fn view(&self) -> PipeView {
        PipeView { read_fd: self.read_fd as int, write_fd: self.write_fd as int }
    }
}

impl DeepView for PipeEnds {
    type V = PipeView;

    open spec fn deep_view(&self) -> PipeView {
        self.view()
    }
}

/// One descriptor action of the execution plan, to be performed by an
/// interpreter in the process the plan belongs to.
#[derive(Debug, PartialEq, Eq)]
pub enum Action {
    /// Close the descriptor.
    CloseFd { fd: i32 },
    /// Duplicate the descriptor onto the standard-input slot.
    UseAsStdin { fd: i32 },
    /// Duplicate the descriptor onto the standard-output slot.
    UseAsStdout { fd: i32 },
    /// Open the file for reading, duplicate it onto the standard-input
    /// slot, and close the opened descriptor.
    RedirectStdin { path: String },
    /// Open the file for writing (created if absent, truncated),
    /// duplicate it onto the standard-output slot, and close the opened
    /// descriptor.
    RedirectStdout { path: String },
    /// Replace the process image with the program named by the first
    /// argument, passing the whole list as its arguments.
    RunProgram { argv: Vec<String> },
}

/// The mathematical model of an action.
#[verifier::ext_equal]
pub ghost enum ActionView {
    CloseFd { fd: int },
    UseAsStdin { fd: int },
    UseAsStdout { fd: int },
    RedirectStdin { path: Seq<char> },
    RedirectStdout { path: Seq<char> },
    RunProgram { argv: Seq<Seq<char>> },
}

impl View for Action {
    type V = ActionView;

    open spec fn view(&self) -> ActionView {
        match self {
            Action::CloseFd { fd } => ActionView::CloseFd { fd: *fd as int },
            Action::UseAsStdin { fd } => ActionView::UseAsStdin { fd: *fd as int },
            Action::UseAsStdout { fd } => ActionView::UseAsStdout { fd: *fd as int },
            Action::RedirectStdin { path } => ActionView::RedirectStdin { path: path@ },
            Action::RedirectStdout { path } => ActionView::RedirectStdout { path: path@ },
            Action::RunProgram { argv } => ActionView::RunProgram { argv: argv.deep_view() },
        }
    }
}

impl DeepView for Action {
    type V = ActionView;

    open spec fn deep_view(&self) -> ActionView {
        self.view()
    }
}

/// Closing actions for both ends of every pipe, in pipe order.
pub open spec fn spec_close_all(pipes: Seq<PipeView>) -> Seq<ActionView>
    decreases pipes.len(),
{
    if pipes.len() == 0 {
        Seq::empty()
    } else {
        spec_close_all(pipes.drop_last()) + seq![
            ActionView::CloseFd { fd: pipes.last().read_fd },
            ActionView::CloseFd { fd: pipes.last().write_fd },
        ]
    }
}

/// The redirection and image-replacement actions of one stage. A stage
/// with an empty argument list is a no-op at execution time: it neither
/// redirects nor runs a program.
pub open spec fn spec_redirects(stage: CommandView) -> Seq<ActionView> {
    if stage.command.len() == 0 {
        Seq::empty()
    } else {
        (match stage.stdin {
            Some(p) => seq![ActionView::RedirectStdin { path: p }],
            None => Seq::empty(),
        }) + (match stage.stdout {
            Some(p) => seq![ActionView::RedirectStdout { path: p }],
            None => Seq::empty(),
        }) + seq![ActionView::RunProgram { argv: stage.command }]
    }
}

/// The pipe duplications of stage `i`: its standard input comes from
/// the pipe to its left, its standard output goes to the pipe to its
/// right, where those exist.
pub open spec fn spec_pipe_dups(stage_count: int, pipes: Seq<PipeView>, i: int) -> Seq<ActionView> {
    (if i > 0 {
        seq![ActionView::UseAsStdin { fd: pipes[i - 1].read_fd }]
    } else {
        Seq::empty()
    }) + (if i + 1 < stage_count {
        seq![ActionView::UseAsStdout { fd: pipes[i].write_fd }]
    } else {
        Seq::empty()
    })
}

/// The whole plan of the process that realizes stage `i`: wire the
/// pipes onto the standard slots, close every pipe descriptor, then
/// apply the stage's explicit redirections — which therefore override
/// the pipe wiring — and replace the process image.
pub open spec fn spec_stage_actions(stages: Seq<CommandView>, pipes: Seq<PipeView>, i: int) -> Seq<
    ActionView,
> {
    spec_pipe_dups(stages.len() as int, pipes, i) + spec_close_all(pipes) + spec_redirects(
        stages[i],
    )
}

/// The plan of the driving process, which takes no part in the data
/// flow: it closes both ends of every pipe it created.
pub open spec fn spec_driver_actions(pipes: Seq<PipeView>) -> Seq<ActionView> {
    spec_close_all(pipes)
}

proof fn lemma_close_all_step(pipes: Seq<PipeView>, j: int)
    requires
        0 <= j < pipes.len(),
    ensures
        spec_close_all(pipes.take(j + 1)) == spec_close_all(pipes.take(j)) + seq![
            ActionView::CloseFd { fd: pipes[j].read_fd },
            ActionView::CloseFd { fd: pipes[j].write_fd },
        ],
{
    assert(pipes.take(j + 1).drop_last() =~= pipes.take(j));
    assert(pipes.take(j + 1).last() == pipes[j]);
}

fn close_actions(pipes: &Vec<PipeEnds>) -> (r: Vec<Action>)
    ensures
        r.deep_view() == spec_close_all(pipes.deep_view()),
{
    let ghost pv = pipes.deep_view();
    let mut r: Vec<Action> = Vec::new();
    let n = pipes.len();
    let mut j: usize = 0;
    while j < n
        invariant
            pv == pipes.deep_view(),
            n == pipes@.len(),
            j <= n,
            r.deep_view() == spec_close_all(pv.take(j as int)),
        decreases n - j,
    {
        proof {
            lemma_close_all_step(pv, j as int);
        }
        let ghost old_dv = r.deep_view();
        r.push(Action::CloseFd { fd: pipes[j].read_fd });
        r.push(Action::CloseFd { fd: pipes[j].write_fd });
        proof {
            assert(r.deep_view() =~= old_dv + seq![
                ActionView::CloseFd { fd: pv[j as int].read_fd },
                ActionView::CloseFd { fd: pv[j as int].write_fd },
            ]);
        }
        j = j + 1;
    }
    proof {
        assert(pv.take(n as int) =~= pv);
    }
    r
}

fn clone_strings(v: &Vec<String>) -> (r: Vec<String>)
    ensures
        r.deep_view() == v.deep_view(),
{
    let mut r: Vec<String> = Vec::new();
    let n = v.len();
    let mut j: usize = 0;
    while j < n
        invariant
            n == v@.len(),
            j <= n,
            r.deep_view() == v.deep_view().take(j as int),
        decreases n - j,
    {
        let c = v[j].clone();
        proof {
            assert(c@ == v.deep_view()[j as int]);
        }
        let ghost old_dv = r.deep_view();
        r.push(c);
        proof {
            assert(r.deep_view() =~= old_dv.push(v.deep_view()[j as int]));
            assert(old_dv.push(v.deep_view()[j as int]) =~= v.deep_view().take(j as int + 1));
        }
        j = j + 1;
    }
    proof {
        assert(v.deep_view().take(n as int) =~= v.deep_view());
    }
    r
}

/// Computes the plan of the process that realizes stage `i` of the
/// pipeline, given the pipes connecting the stages in order.
pub fn stage_actions(stages: &Vec<Command>, pipes: &Vec<PipeEnds>, i: usize) -> (r: Vec<Action>)
    requires
        pipes@.len() + 1 == stages@.len(),
        i < stages@.len(),
    ensures
        r.deep_view() == spec_stage_actions(stages.deep_view(), pipes.deep_view(), i as int),
{
    let ghost sv = stages.deep_view();
    let ghost pv = pipes.deep_view();
    let mut r: Vec<Action> = Vec::new();
    if i > 0 {
        r.push(Action::UseAsStdin { fd: pipes[i - 1].read_fd });
    }
    if i < stages.len() - 1 {
        r.push(Action::UseAsStdout { fd: pipes[i].write_fd });
    }
    proof {
        assert(r.deep_view() =~= spec_pipe_dups(sv.len() as int, pv, i as int));
    }
    let mut closes = close_actions(pipes);
    let ghost before_close = r.deep_view();
    r.append(&mut closes);
    proof {
        assert(r.deep_view() =~= before_close + spec_close_all(pv));
    }
    let ghost before_redirect = r.deep_view();
    let stage = &stages[i];
    if stage.command.len() > 0 {
        match &stage.stdin {
            Some(p) => {
                let ghost old_dv = r.deep_view();
                r.push(Action::RedirectStdin { path: p.clone() });
                proof {
                    assert(r.deep_view() =~= old_dv.push(
                        ActionView::RedirectStdin { path: p@ },
                    ));
                }
            },
            None => {},
        }
        match &stage.stdout {
            Some(p) => {
                let ghost old_dv = r.deep_view();
                r.push(Action::RedirectStdout { path: p.clone() });
                proof {
                    assert(r.deep_view() =~= old_dv.push(
                        ActionView::RedirectStdout { path: p@ },
                    ));
                }
            },
            None => {},
        }
        let argv = clone_strings(&stage.command);
        let ghost old_dv = r.deep_view();
        r.push(Action::RunProgram { argv });
        proof {
            assert(r.deep_view() =~= old_dv.push(
                ActionView::RunProgram { argv: sv[i as int].command },
            ));
        }
    }
    proof {
        assert(r.deep_view() =~= before_redirect + spec_redirects(sv[i as int]));
    }
    r
}

/// Computes the plan of the driving process: close both ends of every
/// pipe, so that no pipe descriptor outlives the pipeline in it.
pub fn driver_actions(pipes: &Vec<PipeEnds>) -> (r: Vec<Action>)
    ensures
        r.deep_view() == spec_driver_actions(pipes.deep_view()),
{
    close_actions(pipes)
}

/// What a descriptor refers to, in the model of one process's
/// descriptor table.
#[verifier::ext_equal]
pub ghost enum Chan {
    /// Whatever the standard slot `slot` referred to when the process
    /// was forked.
    Inherited { slot: int },
    /// The read end of pipe `idx`.
    PipeRead { idx: int },
    /// The write end of pipe `idx`.
    PipeWrite { idx: int },
    /// The file at `path`, open for reading.
    FileRead { path: Seq<char> },
    /// The file at `path`, open for writing.
    FileWrite { path: Seq<char> },
}

/// The three standard slots as they are inherited across a fork.
pub open spec fn std_slots() -> Map<int, Chan> {
    map![
        0int => Chan::Inherited { slot: 0 },
        1int => Chan::Inherited { slot: 1 },
        2int => Chan::Inherited { slot: 2 },
    ]
}

/// Adds both descriptors of every pipe to a descriptor table.
pub open spec fn add_pipes(t: Map<int, Chan>, pipes: Seq<PipeView>) -> Map<int, Chan>
    decreases pipes.len(),
{
    if pipes.len() == 0 {
        t
    } else {
        add_pipes(t, pipes.drop_last()).insert(
            pipes.last().read_fd,
            Chan::PipeRead { idx: pipes.len() - 1 },
        ).insert(pipes.last().write_fd, Chan::PipeWrite { idx: pipes.len() - 1 })
    }
}

/// The descriptor table of a process right after the fork: the three
/// standard slots and both ends of every pipe.
pub open spec fn init_fd_table(pipes: Seq<PipeView>) -> Map<int, Chan> {
    add_pipes(std_slots(), pipes)
}

/// The effect of one action on a descriptor table.
pub open spec fn apply_action(t: Map<int, Chan>, a: ActionView) -> Map<int, Chan> {
    match a {
        ActionView::CloseFd { fd } => t.remove(fd),
        ActionView::UseAsStdin { fd } => if t.dom().contains(fd) {
            t.insert(0, t[fd])
        } else {
            t
        },
        ActionView::UseAsStdout { fd } => if t.dom().contains(fd) {
            t.insert(1, t[fd])
        } else {
            t
        },
        ActionView::RedirectStdin { path } => t.insert(0, Chan::FileRead { path }),
        ActionView::RedirectStdout { path } => t.insert(1, Chan::FileWrite { path }),
        ActionView::RunProgram { argv: _ } => t,
    }
}

/// The effect of a whole action list on a descriptor table.
pub open spec fn apply_actions(t: Map<int, Chan>, acts: Seq<ActionView>) -> Map<int, Chan>
    decreases acts.len(),
{
    if acts.len() == 0 {
        t
    } else {
        apply_action(apply_actions(t, acts.drop_last()), acts.last())
    }
}

/// Whether `fd` is an end of one of the pipes.
pub open spec fn is_pipe_fd(pipes: Seq<PipeView>, fd: int) -> bool {
    exists|j: int| 0 <= j < pipes.len() && (pipes[j].read_fd == fd || pipes[j].write_fd == fd)
}

/// What the operating system guarantees of freshly created pipes: every
/// descriptor is beyond the standard slots, and all of them are
/// pairwise distinct.
pub open spec fn pipes_wf(pipes: Seq<PipeView>) -> bool {
    &&& (forall|j: int|
        0 <= j < pipes.len() ==> pipes[j].read_fd > 2 && pipes[j].write_fd > 2 && pipes[j].read_fd
            != pipes[j].write_fd)
    &&& (forall|j: int, k: int|
        0 <= j < pipes.len() && 0 <= k < pipes.len() && j != k ==> pipes[j].read_fd
            != pipes[k].read_fd && pipes[j].write_fd != pipes[k].write_fd)
    &&& (forall|j: int, k: int|
        0 <= j < pipes.len() && 0 <= k < pipes.len() ==> pipes[j].read_fd != pipes[k].write_fd)
}


proof fn lemma_add_pipes_lookup(t: Map<int, Chan>, pipes: Seq<PipeView>)
    requires
        pipes_wf(pipes),
    ensures
        forall|fd: int| #[trigger]
            add_pipes(t, pipes).dom().contains(fd) ==> t.dom().contains(fd) || is_pipe_fd(
                pipes,
                fd,
            ),
        forall|fd: int|
            t.dom().contains(fd) ==> #[trigger] add_pipes(t, pipes).dom().contains(fd),
        forall|fd: int|
            !is_pipe_fd(pipes, fd) && t.dom().contains(fd) ==> #[trigger] add_pipes(t, pipes)[fd]
                == t[fd],
        forall|j: int|
            0 <= j < pipes.len() ==> add_pipes(t, pipes).dom().contains(
                #[trigger] pipes[j].read_fd,
            ) && add_pipes(t, pipes)[pipes[j].read_fd] == (Chan::PipeRead { idx: j }),
        forall|j: int|
            0 <= j < pipes.len() ==> add_pipes(t, pipes).dom().contains(
                #[trigger] pipes[j].write_fd,
            ) && add_pipes(t, pipes)[pipes[j].write_fd] == (Chan::PipeWrite { idx: j }),
    decreases pipes.len(),
{
    if pipes.len() > 0 {
        let prev = pipes.drop_last();
        let last = pipes.last();
        let m = pipes.len() - 1;
        assert(forall|j: int| 0 <= j < prev.len() ==> prev[j] == pipes[j]);
        assert(last == pipes[m]);
        assert(pipes_wf(prev));
        lemma_add_pipes_lookup(t, prev);
        let base = add_pipes(t, prev);
        let full = add_pipes(t, pipes);
        assert(full == base.insert(last.read_fd, Chan::PipeRead { idx: m }).insert(
            last.write_fd,
            Chan::PipeWrite { idx: m },
        ));
        assert(last.read_fd != last.write_fd);
        assert(forall|j: int|
            0 <= j < m ==> pipes[j].read_fd != last.read_fd && pipes[j].read_fd != last.write_fd
                && pipes[j].write_fd != last.write_fd && pipes[j].write_fd != last.read_fd);
        assert forall|fd: int| is_pipe_fd(prev, fd) implies is_pipe_fd(pipes, fd) by {
            let j = choose|j: int|
                0 <= j < prev.len() && (prev[j].read_fd == fd || prev[j].write_fd == fd);
            assert(0 <= j < pipes.len() && (pipes[j].read_fd == fd || pipes[j].write_fd == fd));
        }
        assert(is_pipe_fd(pipes, last.read_fd)) by {
            assert(0 <= m < pipes.len() && pipes[m].read_fd == last.read_fd);
        }
        assert(is_pipe_fd(pipes, last.write_fd)) by {
            assert(0 <= m < pipes.len() && pipes[m].write_fd == last.write_fd);
        }
        assert forall|j: int|
            0 <= j < pipes.len() implies full.dom().contains(#[trigger] pipes[j].read_fd)
            && full[pipes[j].read_fd] == (Chan::PipeRead { idx: j }) by {
            if j < m {
                assert(base.dom().contains(prev[j].read_fd) && base[prev[j].read_fd]
                    == (Chan::PipeRead { idx: j }));
            }
        }
        assert forall|j: int|
            0 <= j < pipes.len() implies full.dom().contains(#[trigger] pipes[j].write_fd)
            && full[pipes[j].write_fd] == (Chan::PipeWrite { idx: j }) by {
            if j < m {
                assert(base.dom().contains(prev[j].write_fd) && base[prev[j].write_fd]
                    == (Chan::PipeWrite { idx: j }));
            }
        }
        assert forall|fd: int| #[trigger]
            full.dom().contains(fd) implies t.dom().contains(fd) || is_pipe_fd(pipes, fd) by {
            if fd != last.read_fd && fd != last.write_fd {
                assert(base.dom().contains(fd));
                if !t.dom().contains(fd) {
                    assert(is_pipe_fd(prev, fd));
                }
            }
        }
        assert forall|fd: int|
            !is_pipe_fd(pipes, fd) && t.dom().contains(fd) implies #[trigger] full[fd] == t[fd] by {
            assert(!is_pipe_fd(prev, fd));
            assert(fd != last.read_fd && fd != last.write_fd);
            assert(base[fd] == t[fd]);
        }
    }
}

proof fn lemma_apply_one(t: Map<int, Chan>, a: ActionView)
    ensures
        apply_actions(t, seq![a]) == apply_action(t, a),
{
    let s = seq![a];
    assert(s.drop_last() =~= Seq::<ActionView>::empty());
    assert(apply_actions(t, s.drop_last()) == t);
    assert(s.last() == a);
}

proof fn lemma_apply_concat(t: Map<int, Chan>, a: Seq<ActionView>, b: Seq<ActionView>)
    ensures
        apply_actions(t, a + b) == apply_actions(apply_actions(t, a), b),
    decreases b.len(),
{
    if b.len() == 0 {
        assert(a + b =~= a);
    } else {
        assert((a + b).drop_last() =~= a + b.drop_last());
        assert((a + b).last() == b.last());
        lemma_apply_concat(t, a, b.drop_last());
    }
}

proof fn lemma_close_all_removes(t: Map<int, Chan>, pipes: Seq<PipeView>)
    ensures
        forall|fd: int| #[trigger]
            apply_actions(t, spec_close_all(pipes)).dom().contains(fd) <==> (t.dom().contains(fd)
                && !is_pipe_fd(pipes, fd)),
        forall|fd: int|
            apply_actions(t, spec_close_all(pipes)).dom().contains(fd) ==> #[trigger] apply_actions(
                t,
                spec_close_all(pipes),
            )[fd] == t[fd],
    decreases pipes.len(),
{
    if pipes.len() == 0 {
        assert(forall|fd: int| !is_pipe_fd(pipes, fd));
    } else {
        let prev = pipes.drop_last();
        let last = pipes.last();
        let m = pipes.len() - 1;
        lemma_close_all_removes(t, prev);
        let mid = apply_actions(t, spec_close_all(prev));
        let close_r = ActionView::CloseFd { fd: last.read_fd };
        let close_w = ActionView::CloseFd { fd: last.write_fd };
        let tail = seq![close_r, close_w];
        assert(spec_close_all(pipes) == spec_close_all(prev) + tail);
        lemma_apply_concat(t, spec_close_all(prev), tail);
        assert(tail =~= seq![close_r] + seq![close_w]);
        lemma_apply_concat(mid, seq![close_r], seq![close_w]);
        lemma_apply_one(mid, close_r);
        lemma_apply_one(mid.remove(last.read_fd), close_w);
        assert(apply_actions(t, spec_close_all(pipes)) == mid.remove(last.read_fd).remove(
            last.write_fd,
        ));
        assert forall|fd: int|
            is_pipe_fd(pipes, fd) <==> (is_pipe_fd(prev, fd) || fd == last.read_fd || fd
                == last.write_fd) by {
            if is_pipe_fd(pipes, fd) {
                let j = choose|j: int|
                    0 <= j < pipes.len() && (pipes[j].read_fd == fd || pipes[j].write_fd == fd);
                if j < m {
                    assert(0 <= j < prev.len() && (prev[j].read_fd == fd || prev[j].write_fd
                        == fd));
                }
            }
            if is_pipe_fd(prev, fd) {
                let j = choose|j: int|
                    0 <= j < prev.len() && (prev[j].read_fd == fd || prev[j].write_fd == fd);
                assert(0 <= j < pipes.len() && (pipes[j].read_fd == fd || pipes[j].write_fd
                    == fd));
            }
            if fd == last.read_fd || fd == last.write_fd {
                assert(0 <= m < pipes.len() && (pipes[m].read_fd == fd || pipes[m].write_fd
                    == fd));
            }
        }
    }
}

proof fn lemma_pipe_fds_above_std(pipes: Seq<PipeView>)
    requires
        pipes_wf(pipes),
    ensures
        forall|fd: int| #[trigger] is_pipe_fd(pipes, fd) ==> fd > 2,
{
    assert forall|fd: int| #[trigger] is_pipe_fd(pipes, fd) implies fd > 2 by {
        let j = choose|j: int|
            0 <= j < pipes.len() && (pipes[j].read_fd == fd || pipes[j].write_fd == fd);
    }
}

/// Where stage `i`'s standard input comes from once its plan has run:
/// its explicit redirection if it runs a program and has one, else the
/// pipe to its left, else whatever the process inherited.
pub open spec fn spec_stdin_chan(stages: Seq<CommandView>, pipes: Seq<PipeView>, i: int) -> Chan {
    let stage = stages[i];
    if stage.command.len() > 0 && stage.stdin is Some {
        Chan::FileRead { path: stage.stdin->0 }
    } else if i > 0 {
        Chan::PipeRead { idx: i - 1 }
    } else {
        Chan::Inherited { slot: 0 }
    }
}

/// Where stage `i`'s standard output goes once its plan has run: its
/// explicit redirection if it runs a program and has one, else the pipe
/// to its right, else whatever the process inherited.
pub open spec fn spec_stdout_chan(stages: Seq<CommandView>, pipes: Seq<PipeView>, i: int) -> Chan {
    let stage = stages[i];
    if stage.command.len() > 0 && stage.stdout is Some {
        Chan::FileWrite { path: stage.stdout->0 }
    } else if i + 1 < stages.len() {
        Chan::PipeWrite { idx: i }
    } else {
        Chan::Inherited { slot: 1 }
    }
}

/// After the driving process has run its plan, its descriptor table
/// holds exactly the three standard slots, unchanged: no pipe
/// descriptor created for the pipeline remains open in it.
pub proof fn lemma_driver_plan_leaks_nothing(pipes: Seq<PipeView>)
    requires
        pipes_wf(pipes),
    ensures
        apply_actions(init_fd_table(pipes), spec_driver_actions(pipes)).dom() == set![
            0int,
            1int,
            2int,
        ],
        apply_actions(init_fd_table(pipes), spec_driver_actions(pipes))[0] == (Chan::Inherited {
            slot: 0,
        }),
        apply_actions(init_fd_table(pipes), spec_driver_actions(pipes))[1] == (Chan::Inherited {
            slot: 1,
        }),
        apply_actions(init_fd_table(pipes), spec_driver_actions(pipes))[2] == (Chan::Inherited {
            slot: 2,
        }),
{
    let t0 = init_fd_table(pipes);
    lemma_add_pipes_lookup(std_slots(), pipes);
    lemma_close_all_removes(t0, pipes);
    lemma_pipe_fds_above_std(pipes);
    let t = apply_actions(t0, spec_driver_actions(pipes));
    assert(t.dom() =~= set![0int, 1int, 2int]);
    assert(t0[0] == (Chan::Inherited { slot: 0 }));
    assert(t0[1] == (Chan::Inherited { slot: 1 }));
    assert(t0[2] == (Chan::Inherited { slot: 2 }));
}

/// After the process of stage `i` has run its plan, its descriptor
/// table holds exactly the three standard slots: every pipe end is
/// closed, standard input and output are wired as the stage demands,
/// and the error slot is untouched.
pub proof fn lemma_stage_plan_wires_and_leaks_nothing(
    stages: Seq<CommandView>,
    pipes: Seq<PipeView>,
    i: int,
)
    requires
        pipes_wf(pipes),
        pipes.len() + 1 == stages.len(),
        0 <= i < stages.len(),
    ensures
        apply_actions(init_fd_table(pipes), spec_stage_actions(stages, pipes, i)).dom() == set![
            0int,
            1int,
            2int,
        ],
        apply_actions(init_fd_table(pipes), spec_stage_actions(stages, pipes, i))[0]
            == spec_stdin_chan(stages, pipes, i),
        apply_actions(init_fd_table(pipes), spec_stage_actions(stages, pipes, i))[1]
            == spec_stdout_chan(stages, pipes, i),
        apply_actions(init_fd_table(pipes), spec_stage_actions(stages, pipes, i))[2]
            == (Chan::Inherited { slot: 2 }),
{
    let t0 = init_fd_table(pipes);
    lemma_add_pipes_lookup(std_slots(), pipes);
    lemma_pipe_fds_above_std(pipes);
    assert(t0[0] == (Chan::Inherited { slot: 0 }));
    assert(t0[1] == (Chan::Inherited { slot: 1 }));
    assert(t0[2] == (Chan::Inherited { slot: 2 }));
    let dups = spec_pipe_dups(stages.len() as int, pipes, i);
    let closes = spec_close_all(pipes);
    let reds = spec_redirects(stages[i]);
    assert(spec_stage_actions(stages, pipes, i) == dups + closes + reds);
    lemma_apply_concat(t0, dups + closes, reds);
    lemma_apply_concat(t0, dups, closes);
    let t1 = apply_actions(t0, dups);
    let t2 = apply_actions(t1, closes);
    let t3 = apply_actions(t2, reds);
    assert(apply_actions(t0, spec_stage_actions(stages, pipes, i)) == t3);
    // The value sitting in slots 0 and 1 once the pipes are wired.
    let v0 = if i > 0 {
        Chan::PipeRead { idx: i - 1 }
    } else {
        Chan::Inherited { slot: 0 }
    };
    let v1 = if i + 1 < stages.len() {
        Chan::PipeWrite { idx: i }
    } else {
        Chan::Inherited { slot: 1 }
    };
    if i > 0 {
        let in_dup = ActionView::UseAsStdin { fd: pipes[i - 1].read_fd };
        assert(t0.dom().contains(pipes[i - 1].read_fd));
        assert(t0[pipes[i - 1].read_fd] == (Chan::PipeRead { idx: i - 1 }));
        if i + 1 < stages.len() {
            let out_dup = ActionView::UseAsStdout { fd: pipes[i].write_fd };
            assert(dups =~= seq![in_dup] + seq![out_dup]);
            lemma_apply_concat(t0, seq![in_dup], seq![out_dup]);
            lemma_apply_one(t0, in_dup);
            let ta = t0.insert(0, Chan::PipeRead { idx: i - 1 });
            lemma_apply_one(ta, out_dup);
            assert(ta.dom().contains(pipes[i].write_fd));
            assert(ta[pipes[i].write_fd] == (Chan::PipeWrite { idx: i }));
            assert(t1 == ta.insert(1, Chan::PipeWrite { idx: i }));
        } else {
            assert(dups =~= seq![in_dup]);
            lemma_apply_one(t0, in_dup);
            assert(t1 == t0.insert(0, Chan::PipeRead { idx: i - 1 }));
        }
    } else {
        if i + 1 < stages.len() {
            let out_dup = ActionView::UseAsStdout { fd: pipes[i].write_fd };
            assert(dups =~= seq![out_dup]);
            lemma_apply_one(t0, out_dup);
            assert(t0.dom().contains(pipes[i].write_fd));
            assert(t0[pipes[i].write_fd] == (Chan::PipeWrite { idx: i }));
            assert(t1 == t0.insert(1, Chan::PipeWrite { idx: i }));
        } else {
            assert(dups =~= Seq::<ActionView>::empty());
            assert(t1 == t0);
        }
    }
    assert(t1[0] == v0);
    assert(t1[1] == v1);
    assert(t1[2] == (Chan::Inherited { slot: 2 }));
    assert(forall|fd: int| #[trigger]
        t1.dom().contains(fd) <==> t0.dom().contains(fd));
    // Closing every pipe end leaves exactly the standard slots.
    lemma_close_all_removes(t1, pipes);
    assert(t2.dom() =~= set![0int, 1int, 2int]);
    assert(t2[0] == v0);
    assert(t2[1] == v1);
    assert(t2[2] == (Chan::Inherited { slot: 2 }));
    // The stage's own redirections overwrite slots 0 and 1 only.
    let stage = stages[i];
    if stage.command.len() == 0 {
        assert(reds =~= Seq::<ActionView>::empty());
        assert(t3 == t2);
    } else {
        let in_red = match stage.stdin {
            Some(p) => seq![ActionView::RedirectStdin { path: p }],
            None => Seq::<ActionView>::empty(),
        };
        let out_red = match stage.stdout {
            Some(p) => seq![ActionView::RedirectStdout { path: p }],
            None => Seq::<ActionView>::empty(),
        };
        let run = ActionView::RunProgram { argv: stage.command };
        assert(reds == in_red + out_red + seq![run]);
        lemma_apply_concat(t2, in_red + out_red, seq![run]);
        lemma_apply_concat(t2, in_red, out_red);
        let ta = apply_actions(t2, in_red);
        match stage.stdin {
            Some(p) => {
                lemma_apply_one(t2, ActionView::RedirectStdin { path: p });
                assert(ta == t2.insert(0, Chan::FileRead { path: p }));
            },
            None => {
                assert(in_red =~= Seq::<ActionView>::empty());
                assert(ta == t2);
            },
        }
        let tb = apply_actions(ta, out_red);
        match stage.stdout {
            Some(p) => {
                lemma_apply_one(ta, ActionView::RedirectStdout { path: p });
                assert(tb == ta.insert(1, Chan::FileWrite { path: p }));
            },
            None => {
                assert(out_red =~= Seq::<ActionView>::empty());
                assert(tb == ta);
            },
        }
        lemma_apply_one(tb, run);
        assert(t3 == tb);
    }
    assert(t3.dom() =~= set![0int, 1int, 2int]);
    assert(t3[0] == spec_stdin_chan(stages, pipes, i));
    assert(t3[1] == spec_stdout_chan(stages, pipes, i));
    assert(t3[2] == (Chan::Inherited { slot: 2 }));
}

} // verus!

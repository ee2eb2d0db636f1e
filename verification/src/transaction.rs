//! MULTI/EXEC transactions: a per-connection switch and the queue of
//! commands held back while it is on.
use vstd::prelude::*;
use crate::command_router::{Command, CommandView};
use crate::executor::{
    exec_queue, get_command_action, incr_try, lemma_exec_queue_stops, set_command_action,
    set_expiry_ok, CommandContext,
};
use crate::resp::{lemma_strings_view_push, strings_view};

verus! {

pub struct TransactionContainer {
    pub active: bool,
    execution_queue: Vec<Command>,
}

/// Whether a transaction is open, and the commands queued in it.
pub struct TxView {
    pub active: bool,
    pub queue: Seq<CommandView>,
}

pub open spec fn commands_view(v: Seq<Command>) -> Seq<CommandView> {
    v.map_values(|c: Command| c@)
}

impl View for TransactionContainer {
    type V = TxView;

    closed spec fn view(&self) -> TxView {
        TxView { active: self.active, queue: commands_view(self.execution_queue@) }
    }
}

impl TransactionContainer {
    /// No transaction open, nothing queued.
    pub fn new() -> (r: Self)
        ensures
            r@ == (TxView { active: false, queue: seq![] }),
    {
        let r = Self { execution_queue: Vec::new(), active: false };
        assert(r@.queue =~= Seq::<CommandView>::empty());
        r
    }

    /// Queues `command` after the ones already queued.
    pub fn store_action(&mut self, command: Command)
        ensures
            final(self)@ == (TxView { active: old(self)@.active, queue: old(self)@.queue.push(command@) }),
    {
        let ghost q = self.execution_queue@;
        self.execution_queue.push(command);
        assert(commands_view(self.execution_queue@) =~= commands_view(q).push(command@));
    }

    /// Closes the transaction and empties the queue.
    pub fn clear(&mut self)
        ensures
            final(self)@ == (TxView { active: false, queue: seq![] }),
    {
        self.active = false;
        self.execution_queue.clear();
        assert(commands_view(self.execution_queue@) =~= Seq::<CommandView>::empty());
    }

    /// Whether a transaction is open.
    pub fn is_active(&self) -> (r: bool)
        ensures
            r == self@.active,
    {
        self.active
    }

    /// Opens (or keeps open) a transaction.
    pub fn set_active(&mut self, active: bool)
        ensures
            final(self)@ == (TxView { active, queue: old(self)@.queue }),
    {
        self.active = active;
    }

    /// Runs the queued commands in order as `exec_queue` describes,
    /// returning their replies; stops, leaving the queue as it is, where a
    /// queued command cannot be run (`None`). After a full run the
    /// transaction is closed and the queue empty.
    pub fn try_exec_commands(&mut self, context: &mut CommandContext, now: u64) -> (r: Option<Vec<String>>)
        requires
            old(context).wf(),
        ensures
            final(context).wf(),
            final(context).replication_info == old(context).replication_info,
            final(context).args == old(context).args,
            final(context).storage@ == exec_queue(old(context).storage@, old(self)@.queue, now).0,
            match r {
                Some(v) => exec_queue(old(context).storage@, old(self)@.queue, now).2
                    && strings_view(v@) == exec_queue(old(context).storage@, old(self)@.queue, now).1
                    && final(self)@ == (TxView { active: false, queue: seq![] }),
                None => !exec_queue(old(context).storage@, old(self)@.queue, now).2
                    && final(self)@ == old(self)@,
            },
    {
        let ghost q = commands_view(self.execution_queue@);
        let ghost s0 = context.storage@;
        let mut resp: Vec<String> = Vec::new();
        let mut i: usize = 0;
        assert(q.take(0) =~= Seq::<CommandView>::empty());
        while i < self.execution_queue.len()
            invariant
                i <= self.execution_queue.len(),
                q == commands_view(self.execution_queue@),
                q == old(self)@.queue,
                s0 == old(context).storage@,
                context.wf(),
                context.replication_info == old(context).replication_info,
                context.args == old(context).args,
                self@ == old(self)@,
                exec_queue(s0, q.take(i as int), now) == (context.storage@, strings_view(resp@), true),
            decreases self.execution_queue.len() - i,
        {
            proof {
                assert(q.take(i + 1).drop_last() =~= q.take(i as int));
                assert(q.take(i + 1).last() == self.execution_queue@[i as int]@);
            }
            let ghost s_before = context.storage@;
            let ghost r_before = resp@;
            match &self.execution_queue[i] {
                Command::SetValue(cmd) => {
                    if !set_expiry_ok(cmd) {
                        proof {
                            lemma_exec_queue_stops(s0, q, i + 1, now);
                        }
                        return None;
                    }
                    set_command_action(context, cmd, now);
                    let ok = crate::resp::build_bulk(String::from_str("OK"));
                    resp.push(ok);
                    proof {
                        lemma_strings_view_push(r_before, ok);
                    }
                },
                Command::Incr(cmd) => {
                    match incr_try(context, cmd, now) {
                        None => {
                            proof {
                                lemma_exec_queue_stops(s0, q, i + 1, now);
                            }
                            return None;
                        },
                        Some(val) => {
                            let reply = match val {
                                Some(v) => v.build_response_string(),
                                None => String::from_str(
                                    "-ERR value is not an integer or out of range\r\n",
                                ),
                            };
                            resp.push(reply);
                            proof {
                                lemma_strings_view_push(r_before, reply);
                            }
                        },
                    }
                },
                Command::Get(cmd) => {
                    let reply = get_command_action(context, cmd, now);
                    resp.push(reply);
                    proof {
                        lemma_strings_view_push(r_before, reply);
                    }
                },
                _ => {},
            }
            i = i + 1;
        }
        assert(q.take(q.len() as int) =~= q);
        self.clear();
        Some(resp)
    }

    /// Runs the queued commands (see `try_exec_commands`) where none of
    /// them fails to run.
    pub fn exec_commands(&mut self, context: &mut CommandContext, now: u64) -> (r: Vec<String>)
        requires
            old(context).wf(),
            exec_queue(old(context).storage@, old(self)@.queue, now).2,
        ensures
            final(context).wf(),
            final(context).replication_info == old(context).replication_info,
            final(context).args == old(context).args,
            final(context).storage@ == exec_queue(old(context).storage@, old(self)@.queue, now).0,
            strings_view(r@) == exec_queue(old(context).storage@, old(self)@.queue, now).1,
            final(self)@ == (TxView { active: false, queue: seq![] }),
    {
        match self.try_exec_commands(context, now) {
            Some(v) => v,
            None => {
                assert(false);
                Vec::new()
            },
        }
    }
}

} // verus!

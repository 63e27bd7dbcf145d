//! Command dispatch: route an inbound text event to a registered command,
//! enforce its bucket's admission control, honour the before-hook's veto,
//! count the invocation, run the handler, and say exactly what reply (if
//! any) goes back.
//!
//! The flow per event: strip the configured prefix or the leading
//! mention and tokenize; look the first token up in the registry; consult the command's bucket (none means
//! unconditional admission); on proceed, let the before-hook veto, then
//! count and run the handler. Every terminal outcome carries at most one
//! reply for the originating channel.

use vstd::prelude::*;
use crate::dice::{
    outcome_ok, parse_tokens, render_outcome, render_spec, roll_tokens, ParseError, RollOutcome,
};
use crate::limiter::{
    attempt_spec, spec_scope_key, scope_key, BucketConfig, BucketView, Decision, RateLimiter,
};
use crate::store::{Entity, EntityStore, EntityView};
use crate::text::{bytes_eq, copy_bytes, starts_with, sub_bytes, tokenize, tokens_of};

verus! {

/// The built-in handler a command routes to.
#[derive(Clone, Copy, Debug, PartialEq, Eq, Structural)]
pub enum CommandKind {
    /// Roll dice and reply with the outcome.
    Roll,
    /// Create a character record owned by the author.
    Character,
    /// Create a group record owned by the author.
    Group,
    /// Reply with the bot's identity line.
    About,
}

/// One registered command: its name, its aliases, which handler it runs,
/// which bucket (if any) gates it, and a line for the help renderer.
#[derive(Clone, Debug)]
pub struct CommandSpec {
    pub name: Vec<u8>,
    pub aliases: Vec<Vec<u8>>,
    pub kind: CommandKind,
    pub bucket: Option<usize>,
    pub description: Vec<u8>,
}

/// The command table, built explicitly at startup and then only read.
#[derive(Clone, Debug)]
pub struct Registry {
    pub commands: Vec<CommandSpec>,
}

/// Whether `t` names the command `c`, by name or by alias.
pub open spec fn cmd_matches(c: CommandSpec, t: Seq<u8>) -> bool {
    c.name@ == t || exists|i: int| 0 <= i < c.aliases@.len() && (#[trigger] c.aliases@[i])@ == t
}

/// Index of the first command `t` names, or -1 when none does.
pub open spec fn find_cmd(cmds: Seq<CommandSpec>, t: Seq<u8>) -> int
    decreases cmds.len(),
{
    if cmds.len() == 0 {
        -1
    } else if cmd_matches(cmds[0], t) {
        0
    } else if find_cmd(cmds.drop_first(), t) < 0 {
        -1
    } else {
        find_cmd(cmds.drop_first(), t) + 1
    }
}

proof fn lemma_find_cmd_skip(cmds: Seq<CommandSpec>, t: Seq<u8>, i: int)
    requires
        0 <= i <= cmds.len(),
        forall|j: int| 0 <= j < i ==> !cmd_matches(#[trigger] cmds[j], t),
    ensures
        find_cmd(cmds, t) == if find_cmd(cmds.skip(i), t) >= 0 {
            find_cmd(cmds.skip(i), t) + i
        } else {
            -1
        },
    decreases i,
{
    if i == 0 {
        assert(cmds.skip(0) =~= cmds);
    } else {
        lemma_find_cmd_skip(cmds, t, i - 1);
        assert(cmds.skip(i - 1).drop_first() =~= cmds.skip(i));
        assert(cmds.skip(i - 1)[0] == cmds[i - 1]);
    }
}

impl Registry {
    /// Whether `c` (a command spec held by value elsewhere) matches `t`.
    fn matches_token(c: &CommandSpec, t: &Vec<u8>) -> (r: bool)
        ensures
            r == cmd_matches(*c, t@),
    {
        if bytes_eq(&c.name, t) {
            return true;
        }
        let mut i: usize = 0;
        while i < c.aliases.len()
            invariant
                0 <= i <= c.aliases@.len(),
                forall|j: int| 0 <= j < i ==> (#[trigger] c.aliases@[j])@ != t@,
            decreases c.aliases@.len() - i,
        {
            if bytes_eq(&c.aliases[i], t) {
                return true;
            }
            i = i + 1;
        }
        false
    }

    /// Look a token up: the first command it names, if any.
    pub fn lookup(&self, t: &Vec<u8>) -> (r: Option<usize>)
        ensures
            r is Some ==> r->0 < self.commands@.len() && find_cmd(self.commands@, t@) == r->0,
            r is None ==> find_cmd(self.commands@, t@) == -1,
    {
        let mut i: usize = 0;
        while i < self.commands.len()
            invariant
                0 <= i <= self.commands@.len(),
                forall|j: int| 0 <= j < i ==> !cmd_matches(#[trigger] self.commands@[j], t@),
            decreases self.commands@.len() - i,
        {
            if Self::matches_token(&self.commands[i], t) {
                proof {
                    lemma_find_cmd_skip(self.commands@, t@, i as int);
                    assert(self.commands@.skip(i as int)[0] == self.commands@[i as int]);
                }
                return Some(i);
            }
            i = i + 1;
        }
        proof {
            lemma_find_cmd_skip(self.commands@, t@, i as int);
            assert(self.commands@.skip(i as int).len() == 0);
        }
        None
    }
}

/// One inbound message, already normalized by the transport.
#[derive(Clone, Debug)]
pub struct CommandEvent {
    pub author_id: u64,
    pub channel_id: u64,
    pub guild_id: Option<u64>,
    pub content: Vec<u8>,
    pub received_at: u64,
}

/// The terminal state of one dispatched event.
#[derive(Clone, Debug, PartialEq, Eq)]
pub enum DispatchOutcome {
    /// The message does not address the bot; no reply.
    NotCommand,
    /// The first token names no command; the policy here is silent.
    NotFound,
    /// The before-hook refused execution; the handler never ran.
    Vetoed,
    /// Queued under invocation `id` in the bucket's waiting list; it runs
    /// when a later attempt releases the id, at the latest `retry_after`
    /// later.
    Delayed { retry_after: u64, id: u64 },
    /// Rejected by the bucket; `notify` asks for the one-time notice.
    RateLimited { retry_after: u64, notify: bool },
    /// The arguments were rejected; `reply` says why.
    ParseFailed { error: ParseError, reply: Vec<u8> },
    /// The handler ran; `reply` is its one message.
    Executed { reply: Vec<u8> },
}

// "Role Result: " — the reply line prefix.
pub open spec fn lit_role_result() -> Seq<u8> {
    seq![82u8, 111u8, 108u8, 101u8, 32u8, 82u8, 101u8, 115u8, 117u8, 108u8, 116u8, 58u8, 32u8]
}

// "new"
pub open spec fn lit_new() -> Seq<u8> {
    seq![110u8, 101u8, 119u8]
}

// "Creating new character "
pub open spec fn lit_creating_character() -> Seq<u8> {
    seq![
        67u8, 114u8, 101u8, 97u8, 116u8, 105u8, 110u8, 103u8, 32u8, 110u8, 101u8, 119u8, 32u8,
        99u8, 104u8, 97u8, 114u8, 97u8, 99u8, 116u8, 101u8, 114u8, 32u8,
    ]
}

// "Creating new group "
pub open spec fn lit_creating_group() -> Seq<u8> {
    seq![
        67u8, 114u8, 101u8, 97u8, 116u8, 105u8, 110u8, 103u8, 32u8, 110u8, 101u8, 119u8, 32u8,
        103u8, 114u8, 111u8, 117u8, 112u8, 32u8,
    ]
}

// "Expected: new <name>"
pub open spec fn lit_usage_new() -> Seq<u8> {
    seq![
        69u8, 120u8, 112u8, 101u8, 99u8, 116u8, 101u8, 100u8, 58u8, 32u8, 110u8, 101u8, 119u8,
        32u8, 60u8, 110u8, 97u8, 109u8, 101u8, 62u8,
    ]
}

/// The reply for each rejected roll expression.
pub open spec fn parse_error_reply(e: ParseError) -> Seq<u8> {
    match e {
        // "No roll expression given."
        ParseError::Empty => seq![
            78u8, 111u8, 32u8, 114u8, 111u8, 108u8, 108u8, 32u8, 101u8, 120u8, 112u8, 114u8,
            101u8, 115u8, 115u8, 105u8, 111u8, 110u8, 32u8, 103u8, 105u8, 118u8, 101u8, 110u8,
            46u8,
        ],
        // "Could not read the roll expression."
        ParseError::Malformed => seq![
            67u8, 111u8, 117u8, 108u8, 100u8, 32u8, 110u8, 111u8, 116u8, 32u8, 114u8, 101u8,
            97u8, 100u8, 32u8, 116u8, 104u8, 101u8, 32u8, 114u8, 111u8, 108u8, 108u8, 32u8,
            101u8, 120u8, 112u8, 114u8, 101u8, 115u8, 115u8, 105u8, 111u8, 110u8, 46u8,
        ],
        // "Dice count or sides out of range."
        ParseError::OutOfRange => seq![
            68u8, 105u8, 99u8, 101u8, 32u8, 99u8, 111u8, 117u8, 110u8, 116u8, 32u8, 111u8,
            114u8, 32u8, 115u8, 105u8, 100u8, 101u8, 115u8, 32u8, 111u8, 117u8, 116u8, 32u8,
            111u8, 102u8, 32u8, 114u8, 97u8, 110u8, 103u8, 101u8, 46u8,
        ],
        // "Unknown roll mode."
        ParseError::UnknownMode => seq![
            85u8, 110u8, 107u8, 110u8, 111u8, 119u8, 110u8, 32u8, 114u8, 111u8, 108u8, 108u8,
            32u8, 109u8, 111u8, 100u8, 101u8, 46u8,
        ],
    }
}

fn parse_error_reply_vec(e: ParseError) -> (r: Vec<u8>)
    ensures
        r@ == parse_error_reply(e),
{
    match e {
        ParseError::Empty => {
            let v: Vec<u8> = vec![
                78u8, 111u8, 32u8, 114u8, 111u8, 108u8, 108u8, 32u8, 101u8, 120u8, 112u8, 114u8,
                101u8, 115u8, 115u8, 105u8, 111u8, 110u8, 32u8, 103u8, 105u8, 118u8, 101u8,
                110u8, 46u8,
            ];
            proof {
                assert(v@ =~= parse_error_reply(e));
            }
            v
        },
        ParseError::Malformed => {
            let v: Vec<u8> = vec![
                67u8, 111u8, 117u8, 108u8, 100u8, 32u8, 110u8, 111u8, 116u8, 32u8, 114u8, 101u8,
                97u8, 100u8, 32u8, 116u8, 104u8, 101u8, 32u8, 114u8, 111u8, 108u8, 108u8, 32u8,
                101u8, 120u8, 112u8, 114u8, 101u8, 115u8, 115u8, 105u8, 111u8, 110u8, 46u8,
            ];
            proof {
                assert(v@ =~= parse_error_reply(e));
            }
            v
        },
        ParseError::OutOfRange => {
            let v: Vec<u8> = vec![
                68u8, 105u8, 99u8, 101u8, 32u8, 99u8, 111u8, 117u8, 110u8, 116u8, 32u8, 111u8,
                114u8, 32u8, 115u8, 105u8, 100u8, 101u8, 115u8, 32u8, 111u8, 117u8, 116u8, 32u8,
                111u8, 102u8, 32u8, 114u8, 97u8, 110u8, 103u8, 101u8, 46u8,
            ];
            proof {
                assert(v@ =~= parse_error_reply(e));
            }
            v
        },
        ParseError::UnknownMode => {
            let v: Vec<u8> = vec![
                85u8, 110u8, 107u8, 110u8, 111u8, 119u8, 110u8, 32u8, 114u8, 111u8, 108u8,
                108u8, 32u8, 109u8, 111u8, 100u8, 101u8, 46u8,
            ];
            proof {
                assert(v@ =~= parse_error_reply(e));
            }
            v
        },
    }
}

/// The name a `new <name>` entity command asks to create, if the
/// arguments have that shape.
pub open spec fn entity_new_name(args: Seq<Seq<u8>>) -> Option<Seq<u8>> {
    if args.len() >= 2 && args[0] == lit_new() {
        Some(args[1])
    } else {
        None
    }
}

/// The record a `new` command writes: the name itself, owned by the
/// author, with no attributes yet.
pub open spec fn new_entity_view(name: Seq<u8>, owner: u64) -> EntityView {
    EntityView { name: name, owner: owner, attributes: seq![] }
}

/// A counter that sticks at its maximum instead of wrapping.
pub open spec fn inc1(c: u64) -> u64 {
    if c == u64::MAX {
        c
    } else {
        (c + 1) as u64
    }
}

/// How an event resolves before any admission control.
pub ghost enum Resolution {
    /// No prefix, or nothing after it.
    NotCommand,
    /// The first token names no command.
    NotFound,
    /// Command `ci` with the remaining tokens as arguments.
    Found { ci: int, args: Seq<Seq<u8>> },
}

/// Tokenize what follows the stripped prefix or mention, and look the
/// first token up.
pub open spec fn resolve_body(cmds: Seq<CommandSpec>, rest: Seq<u8>) -> Resolution {
    let toks = tokens_of(rest);
    if toks.len() == 0 {
        Resolution::NotCommand
    } else if find_cmd(cmds, toks[0]) < 0 {
        Resolution::NotFound
    } else {
        Resolution::Found { ci: find_cmd(cmds, toks[0]), args: toks.drop_first() }
    }
}

/// Strip the configured prefix or the leading mention (an empty mention
/// means none is configured), tokenize, and look the first token up.
pub open spec fn resolve_spec(
    prefix: Seq<u8>,
    mention: Seq<u8>,
    cmds: Seq<CommandSpec>,
    content: Seq<u8>,
) -> Resolution {
    if prefix.is_prefix_of(content) {
        resolve_body(cmds, content.skip(prefix.len() as int))
    } else if mention.len() > 0 && mention.is_prefix_of(content) {
        resolve_body(cmds, content.skip(mention.len() as int))
    } else {
        Resolution::NotCommand
    }
}

/// The name a well-formed `new <name>` argument list carries.
fn entity_args(args: &Vec<Vec<u8>>) -> (r: Option<Vec<u8>>)
    ensures
        r is Some <==> entity_new_name(args.deep_view()) is Some,
        r is Some ==> r->0@ == entity_new_name(args.deep_view())->0,
{
    proof {
        if args.deep_view().len() > 0 {
            assert(args.deep_view()[0] =~= args@[0]@);
        }
        if args.deep_view().len() > 1 {
            assert(args.deep_view()[1] =~= args@[1]@);
        }
    }
    if args.len() < 2 {
        return None;
    }
    let new_word: Vec<u8> = vec![110u8, 101u8, 119u8];
    proof {
        assert(new_word@ =~= lit_new());
    }
    if bytes_eq(&args[0], &new_word) {
        Some(copy_bytes(&args[1]))
    } else {
        None
    }
}

// "Expected: new <name>"
fn usage_new_vec() -> (r: Vec<u8>)
    ensures
        r@ == lit_usage_new(),
{
    let v: Vec<u8> = vec![
        69u8, 120u8, 112u8, 101u8, 99u8, 116u8, 101u8, 100u8, 58u8, 32u8, 110u8, 101u8, 119u8,
        32u8, 60u8, 110u8, 97u8, 109u8, 101u8, 62u8,
    ];
    proof {
        assert(v@ =~= lit_usage_new());
    }
    v
}

/// The `character` command: `new <name>` writes a fresh record under
/// `name`, owned by the author, into the character store, replacing any
/// record of that name wholesale; anything else changes nothing and is
/// answered with the usage line.
pub fn character(store: &mut EntityStore, args: &Vec<Vec<u8>>, author_id: u64) -> (out: DispatchOutcome)
    requires
        old(store).wf(),
        old(store).is_loaded(),
    ensures
        final(store).wf(),
        final(store).is_loaded(),
        match entity_new_name(args.deep_view()) {
            Some(name) => final(store)@ == old(store)@.insert(name, new_entity_view(name, author_id))
                && (out matches DispatchOutcome::Executed { reply }
                    && reply@ == lit_creating_character() + name),
            None => *final(store) == *old(store)
                && (out matches DispatchOutcome::ParseFailed { error, reply }
                    && error == ParseError::Malformed && reply@ == lit_usage_new()),
        },
{
    match entity_args(args) {
        Some(name) => {
            let key = copy_bytes(&name);
            let ent_name = copy_bytes(&name);
            let entity = Entity { name: ent_name, owner: author_id, attributes: Vec::new() };
            proof {
                assert(entity@ =~= new_entity_view(name@, author_id));
            }
            store.upsert(key, entity);
            let mut reply: Vec<u8> = vec![
                67u8, 114u8, 101u8, 97u8, 116u8, 105u8, 110u8, 103u8, 32u8, 110u8, 101u8, 119u8,
                32u8, 99u8, 104u8, 97u8, 114u8, 97u8, 99u8, 116u8, 101u8, 114u8, 32u8,
            ];
            proof {
                assert(reply@ =~= lit_creating_character());
            }
            let mut tail = name;
            reply.append(&mut tail);
            DispatchOutcome::Executed { reply }
        },
        None => {
            let reply = usage_new_vec();
            DispatchOutcome::ParseFailed { error: ParseError::Malformed, reply }
        },
    }
}

/// The `group` command: `new <name>` writes a fresh record under `name`,
/// owned by the author, into the group store, replacing any record of
/// that name wholesale; anything else changes nothing and is answered
/// with the usage line.
pub fn group(store: &mut EntityStore, args: &Vec<Vec<u8>>, author_id: u64) -> (out: DispatchOutcome)
    requires
        old(store).wf(),
        old(store).is_loaded(),
    ensures
        final(store).wf(),
        final(store).is_loaded(),
        match entity_new_name(args.deep_view()) {
            Some(name) => final(store)@ == old(store)@.insert(name, new_entity_view(name, author_id))
                && (out matches DispatchOutcome::Executed { reply }
                    && reply@ == lit_creating_group() + name),
            None => *final(store) == *old(store)
                && (out matches DispatchOutcome::ParseFailed { error, reply }
                    && error == ParseError::Malformed && reply@ == lit_usage_new()),
        },
{
    match entity_args(args) {
        Some(name) => {
            let key = copy_bytes(&name);
            let ent_name = copy_bytes(&name);
            let entity = Entity { name: ent_name, owner: author_id, attributes: Vec::new() };
            proof {
                assert(entity@ =~= new_entity_view(name@, author_id));
            }
            store.upsert(key, entity);
            let mut reply: Vec<u8> = vec![
                67u8, 114u8, 101u8, 97u8, 116u8, 105u8, 110u8, 103u8, 32u8, 110u8, 101u8, 119u8,
                32u8, 103u8, 114u8, 111u8, 117u8, 112u8, 32u8,
            ];
            proof {
                assert(reply@ =~= lit_creating_group());
            }
            let mut tail = name;
            reply.append(&mut tail);
            DispatchOutcome::Executed { reply }
        },
        None => {
            let reply = usage_new_vec();
            DispatchOutcome::ParseFailed { error: ParseError::Malformed, reply }
        },
    }
}

/// The dispatch engine: the registry, the bucket limiters it gates with,
/// the per-command invocation counts, and the entity stores the handlers
/// write.
pub struct Dispatcher {
    pub registry: Registry,
    pub prefix: Vec<u8>,
    pub mention: Vec<u8>,
    pub max_dice: u32,
    pub about_line: Vec<u8>,
    pub buckets: Vec<RateLimiter>,
    pub counts: Vec<u64>,
    pub next_id: u64,
    pub characters: EntityStore,
    pub groups: EntityStore,
}

/// What the handler of `kind` did, given the state before and after and
/// the outcome: the entity stores change exactly as the command says,
/// and the reply is pinned to the arguments (dice aside, whose draws are
/// random but well-formed per `outcome_ok`).
pub open spec fn handler_post(
    d0: Dispatcher,
    d1: Dispatcher,
    kind: CommandKind,
    args: Seq<Seq<u8>>,
    event: CommandEvent,
    out: DispatchOutcome,
) -> bool {
    match kind {
        CommandKind::Roll => {
            &&& d1.characters == d0.characters
            &&& d1.groups == d0.groups
            &&& match parse_tokens(args, d0.max_dice) {
                Err(e) => (out matches DispatchOutcome::ParseFailed { error, reply }
                    && error == e && reply@ == parse_error_reply(e)),
                Ok(p) => (out matches DispatchOutcome::Executed { reply }
                    && exists|o: RollOutcome| #[trigger] outcome_ok(o, p)
                        && reply@ == lit_role_result() + render_spec(o)),
            }
        },
        CommandKind::Character => {
            &&& d1.groups == d0.groups
            &&& match entity_new_name(args) {
                Some(name) => {
                    &&& d1.characters@ == d0.characters@.insert(
                        name,
                        new_entity_view(name, event.author_id),
                    )
                    &&& (out matches DispatchOutcome::Executed { reply }
                        && reply@ == lit_creating_character() + name)
                },
                None => {
                    &&& d1.characters == d0.characters
                    &&& (out matches DispatchOutcome::ParseFailed { error, reply }
                        && error == ParseError::Malformed && reply@ == lit_usage_new())
                },
            }
        },
        CommandKind::Group => {
            &&& d1.characters == d0.characters
            &&& match entity_new_name(args) {
                Some(name) => {
                    &&& d1.groups@ == d0.groups@.insert(name, new_entity_view(name, event.author_id))
                    &&& (out matches DispatchOutcome::Executed { reply }
                        && reply@ == lit_creating_group() + name)
                },
                None => {
                    &&& d1.groups == d0.groups
                    &&& (out matches DispatchOutcome::ParseFailed { error, reply }
                        && error == ParseError::Malformed && reply@ == lit_usage_new())
                },
            }
        },
        CommandKind::About => {
            &&& d1.characters == d0.characters
            &&& d1.groups == d0.groups
            &&& (out matches DispatchOutcome::Executed { reply } && reply@ == d0.about_line@)
        },
    }
}

/// What an admitted event does: a veto stops everything; otherwise the
/// command is counted once and its handler runs.
pub open spec fn admitted_post(
    d0: Dispatcher,
    d1: Dispatcher,
    ci: int,
    args: Seq<Seq<u8>>,
    event: CommandEvent,
    allow: bool,
    out: DispatchOutcome,
) -> bool {
    if !allow {
        &&& d1.counts == d0.counts
        &&& d1.characters == d0.characters
        &&& d1.groups == d0.groups
        &&& out == DispatchOutcome::Vetoed
    } else {
        &&& d1.counts@ == d0.counts@.update(ci, inc1(d0.counts@[ci]))
        &&& handler_post(d0, d1, d0.registry.commands@[ci].kind, args, event, out)
    }
}

impl Dispatcher {
    pub open spec fn wf(&self) -> bool {
        &&& self.counts@.len() == self.registry.commands@.len()
        &&& forall|i: int| 0 <= i < self.registry.commands@.len()
            ==> match (#[trigger] self.registry.commands@[i]).bucket {
                Some(bi) => bi < self.buckets@.len(),
                None => true,
            }
        &&& forall|i: int| 0 <= i < self.buckets@.len() ==> (#[trigger] self.buckets@[i]).wf()
        &&& self.characters.wf()
        &&& self.characters.is_loaded()
        &&& self.groups.wf()
        &&& self.groups.is_loaded()
    }

    /// Assemble the engine. The stores must already hold their persisted
    /// entries; every command's bucket reference must be real; counts
    /// start at zero.
    pub fn new(
        registry: Registry,
        prefix: Vec<u8>,
        mention: Vec<u8>,
        max_dice: u32,
        about_line: Vec<u8>,
        bucket_configs: Vec<BucketConfig>,
        characters: EntityStore,
        groups: EntityStore,
    ) -> (r: Dispatcher)
        requires
            forall|i: int| 0 <= i < registry.commands@.len()
                ==> match (#[trigger] registry.commands@[i]).bucket {
                    Some(bi) => bi < bucket_configs@.len(),
                    None => true,
                },
            forall|i: int| 0 <= i < bucket_configs@.len()
                ==> (#[trigger] bucket_configs@[i]).capacity >= 1,
            characters.wf(),
            characters.is_loaded(),
            groups.wf(),
            groups.is_loaded(),
        ensures
            r.wf(),
            r.registry == registry,
            r.prefix == prefix,
            r.mention == mention,
            r.max_dice == max_dice,
            r.about_line == about_line,
            r.characters == characters,
            r.groups == groups,
            r.buckets@.len() == bucket_configs@.len(),
            forall|i: int| 0 <= i < bucket_configs@.len()
                ==> (#[trigger] r.buckets@[i]).cfg() == bucket_configs@[i]
                    && r.buckets@[i]@ == Map::<u64, BucketView>::empty(),
            r.counts@.len() == registry.commands@.len(),
            forall|i: int| 0 <= i < r.counts@.len() ==> r.counts@[i] == 0,
            r.next_id == 0,
    {
        let mut buckets: Vec<RateLimiter> = Vec::new();
        let mut i: usize = 0;
        while i < bucket_configs.len()
            invariant
                0 <= i <= bucket_configs@.len(),
                buckets@.len() == i,
                forall|j: int| 0 <= j < bucket_configs@.len()
                    ==> (#[trigger] bucket_configs@[j]).capacity >= 1,
                forall|j: int| 0 <= j < i
                    ==> (#[trigger] buckets@[j]).cfg() == bucket_configs@[j]
                        && buckets@[j].wf() && buckets@[j]@ == Map::<u64, BucketView>::empty(),
            decreases bucket_configs@.len() - i,
        {
            buckets.push(RateLimiter::new(bucket_configs[i]));
            i = i + 1;
        }
        let mut counts: Vec<u64> = Vec::new();
        let mut j: usize = 0;
        while j < registry.commands.len()
            invariant
                0 <= j <= registry.commands@.len(),
                counts@.len() == j,
                forall|k: int| 0 <= k < j ==> counts@[k] == 0,
            decreases registry.commands@.len() - j,
        {
            counts.push(0);
            j = j + 1;
        }
        Dispatcher {
            registry,
            prefix,
            mention,
            max_dice,
            about_line,
            buckets,
            counts,
            next_id: 0,
            characters,
            groups,
        }
    }

    /// Count one invocation of command `ci`; used for queued events the
    /// moment they are released.
    pub fn note_invocation(&mut self, ci: usize)
        requires
            old(self).wf(),
            ci < old(self).counts@.len(),
        ensures
            final(self).wf(),
            final(self).counts@ == old(self).counts@.update(ci as int, inc1(old(self).counts@[ci as int])),
            final(self).registry == old(self).registry,
            final(self).prefix == old(self).prefix,
            final(self).mention == old(self).mention,
            final(self).max_dice == old(self).max_dice,
            final(self).about_line == old(self).about_line,
            final(self).buckets == old(self).buckets,
            final(self).next_id == old(self).next_id,
            final(self).characters == old(self).characters,
            final(self).groups == old(self).groups,
    {
        let c = self.counts[ci];
        if c < u64::MAX {
            self.counts[ci] = c + 1;
        } else {
            proof {
                assert(self.counts@ =~= old(self).counts@.update(ci as int, inc1(c)));
            }
        }
    }

    /// Run the handler of command `ci` on `args` for `event`. Public so
    /// that a queued event, once its invocation id is released, can be
    /// run by its holder; `dispatch` uses it for every admitted event.
    pub fn run_command(&mut self, ci: usize, args: &Vec<Vec<u8>>, event: &CommandEvent) -> (out: DispatchOutcome)
        requires
            old(self).wf(),
            ci < old(self).registry.commands@.len(),
        ensures
            final(self).wf(),
            handler_post(*old(self), *final(self), old(self).registry.commands@[ci as int].kind,
                args.deep_view(), *event, out),
            final(self).registry == old(self).registry,
            final(self).prefix == old(self).prefix,
            final(self).mention == old(self).mention,
            final(self).max_dice == old(self).max_dice,
            final(self).about_line == old(self).about_line,
            final(self).buckets == old(self).buckets,
            final(self).counts == old(self).counts,
            final(self).next_id == old(self).next_id,
    {
        let kind = self.registry.commands[ci].kind;
        match kind {
            CommandKind::Roll => {
                match roll_tokens(args, self.max_dice) {
                    Ok(o) => {
                        let mut reply: Vec<u8> = vec![
                            82u8, 111u8, 108u8, 101u8, 32u8, 82u8, 101u8, 115u8, 117u8, 108u8,
                            116u8, 58u8, 32u8,
                        ];
                        proof {
                            assert(reply@ =~= lit_role_result());
                        }
                        let mut rendered = render_outcome(&o);
                        reply.append(&mut rendered);
                        let out = DispatchOutcome::Executed { reply };
                        proof {
                            let p = parse_tokens(args.deep_view(), self.max_dice)->Ok_0;
                            assert(outcome_ok(o, p));
                        }
                        out
                    },
                    Err(e) => {
                        let reply = parse_error_reply_vec(e);
                        DispatchOutcome::ParseFailed { error: e, reply }
                    },
                }
            },
            CommandKind::Character => character(&mut self.characters, args, event.author_id),
            CommandKind::Group => group(&mut self.groups, args, event.author_id),
            CommandKind::About => {
                let reply = copy_bytes(&self.about_line);
                DispatchOutcome::Executed { reply }
            },
        }
    }

    /// Dispatch one inbound event at time `now`; `allow` is the
    /// before-hook's verdict. Resolution, admission, veto, counting and
    /// the handler each act exactly as their specs say; the second
    /// result lists the queued invocation ids this attempt released.
    pub fn dispatch(&mut self, event: &CommandEvent, allow: bool, now: u64) -> (r: (DispatchOutcome, Vec<u64>))
        requires
            old(self).wf(),
            forall|i: int| 0 <= i < old(self).buckets@.len()
                ==> now <= u64::MAX - (#[trigger] old(self).buckets@[i]).cfg().window,
        ensures
            final(self).wf(),
            final(self).registry == old(self).registry,
            final(self).prefix == old(self).prefix,
            final(self).mention == old(self).mention,
            final(self).max_dice == old(self).max_dice,
            final(self).about_line == old(self).about_line,
            ({
                let d0 = *old(self);
                let d1 = *final(self);
                match resolve_spec(d0.prefix@, d0.mention@, d0.registry.commands@, event.content@) {
                    Resolution::NotCommand => d1 == d0 && r.0 == DispatchOutcome::NotCommand
                        && r.1@.len() == 0,
                    Resolution::NotFound => d1 == d0 && r.0 == DispatchOutcome::NotFound
                        && r.1@.len() == 0,
                    Resolution::Found { ci, args } => {
                        let cmd = d0.registry.commands@[ci];
                        match cmd.bucket {
                            None => {
                                &&& d1.buckets == d0.buckets
                                &&& d1.next_id == d0.next_id
                                &&& r.1@.len() == 0
                                &&& admitted_post(d0, d1, ci, args, *event, allow, r.0)
                            },
                            Some(bi) => {
                                let lim0 = d0.buckets@[bi as int];
                                let key = spec_scope_key(lim0.cfg().scope, event.author_id,
                                    event.channel_id, event.guild_id);
                                let prior = if lim0@.contains_key(key) {
                                    Some(lim0@[key])
                                } else {
                                    None
                                };
                                let step = attempt_spec(lim0.cfg(), prior, now, d0.next_id);
                                &&& d1.buckets@.len() == d0.buckets@.len()
                                &&& d1.buckets@[bi as int]@ == lim0@.insert(key, step.bucket)
                                &&& d1.buckets@[bi as int].cfg() == lim0.cfg()
                                &&& forall|j: int| 0 <= j < d0.buckets@.len() && j != bi
                                    ==> d1.buckets@[j] == d0.buckets@[j]
                                &&& d1.next_id == inc1(d0.next_id)
                                &&& r.1@ == step.released
                                &&& match step.decision {
                                    Decision::Proceed => admitted_post(d0, d1, ci, args, *event,
                                        allow, r.0),
                                    Decision::Delay { retry_after } => {
                                        &&& d1.counts == d0.counts
                                        &&& d1.characters == d0.characters
                                        &&& d1.groups == d0.groups
                                        &&& r.0 == (DispatchOutcome::Delayed {
                                            retry_after,
                                            id: d0.next_id,
                                        })
                                    },
                                    Decision::Reject { retry_after, notify } => {
                                        &&& d1.counts == d0.counts
                                        &&& d1.characters == d0.characters
                                        &&& d1.groups == d0.groups
                                        &&& r.0 == (DispatchOutcome::RateLimited {
                                            retry_after,
                                            notify,
                                        })
                                    },
                                }
                            },
                        }
                    },
                }
            }),
    {
        let ghost d0 = *self;
        let rest: Vec<u8>;
        if starts_with(&event.content, &self.prefix) {
            rest = sub_bytes(&event.content, self.prefix.len(), event.content.len());
            proof {
                assert(rest@ =~= event.content@.skip(self.prefix@.len() as int));
            }
        } else if self.mention.len() > 0 && starts_with(&event.content, &self.mention) {
            rest = sub_bytes(&event.content, self.mention.len(), event.content.len());
            proof {
                assert(rest@ =~= event.content@.skip(self.mention@.len() as int));
            }
        } else {
            return (DispatchOutcome::NotCommand, Vec::new());
        }
        let mut tokens = tokenize(&rest);
        if tokens.len() == 0 {
            return (DispatchOutcome::NotCommand, Vec::new());
        }
        let head = tokens.remove(0);
        let args = tokens;
        proof {
            assert(args.deep_view() =~~= tokens_of(rest@).drop_first());
            assert(head@ =~= tokens_of(rest@)[0]);
        }
        let ci = match self.registry.lookup(&head) {
            Some(ci) => ci,
            None => {
                return (DispatchOutcome::NotFound, Vec::new());
            },
        };
        let mut released: Vec<u64> = Vec::new();
        match self.registry.commands[ci].bucket {
            None => {},
            Some(bi) => {
                let mut lim = self.buckets.remove(bi);
                let key = scope_key(lim.bucket_config().scope, event.author_id, event.channel_id,
                    event.guild_id);
                let id = self.next_id;
                let (decision, rel) = lim.attempt(key, now, id);
                released = rel;
                self.buckets.insert(bi, lim);
                if self.next_id < u64::MAX {
                    self.next_id = self.next_id + 1;
                }
                proof {
                    assert(self.buckets@ =~= d0.buckets@.update(bi as int, self.buckets@[bi as int]));
                }
                match decision {
                    Decision::Proceed => {},
                    Decision::Delay { retry_after } => {
                        return (DispatchOutcome::Delayed { retry_after, id }, released);
                    },
                    Decision::Reject { retry_after, notify } => {
                        return (DispatchOutcome::RateLimited { retry_after, notify }, released);
                    },
                }
            },
        }
        if !allow {
            return (DispatchOutcome::Vetoed, released);
        }
        self.note_invocation(ci);
        let out = self.run_command(ci, &args, event);
        (out, released)
    }
}

} // verus!

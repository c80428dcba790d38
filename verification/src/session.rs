//! Session state machine: reacts to classified control messages, emits
//! protocol replies in order, and hands out the transfer descriptor of the
//! first DCC SEND offer, after which it only ever says `QUIT`.

use vstd::prelude::*;
use vstd::string::StringSliceAdditionalSpecFns;
use vstd::string::StrSliceExecFns;
use vstd::utf8::{decode_utf8, valid_utf8};

use crate::Args;
use crate::classify::{
    classify, classification_matches, classify_spec, descriptor_matches, LineClass, Message,
    OfferShape, ProtocolError, TransferDescriptor,
};
use crate::framer::{complete_lines, line_views, remainder_of, Framer};
use crate::text::{dec_chars, push_decimal, trim_ascii, trim_line, decode_line};

verus! {

/// The states of a control session.
#[derive(Debug, PartialEq, Eq, Structural, Clone, Copy)]
pub enum SessionState {
    /// Registration commands sent; MODE not yet seen.
    Registered,
    /// Channels joined and the pack requested; waiting for the offer.
    AwaitingOffer,
    /// A transfer descriptor was produced; the session is done.
    OfferReceived,
    /// The peer closed the control connection.
    Closed,
}

/// The configuration a session step depends on.
pub struct SpecConfig {
    pub bot: Seq<char>,
    pub pack: nat,
    pub channels: Seq<Seq<char>>,
}

pub open spec fn config_view(cfg: &Args) -> SpecConfig {
    SpecConfig {
        bot: cfg.bot@,
        pack: cfg.pack as nat,
        channels: cfg.channel@.map_values(|c: String| c@),
    }
}

/// The fixed nick this client registers under.
pub open spec fn username_chars() -> Seq<char> {
    seq!['T', 'e', 's', 't', 'T', 'e', 's', 't']
}

pub open spec fn user_command(nick: Seq<char>) -> Seq<char> {
    seq!['U', 'S', 'E', 'R', ' '] + nick + seq![' ', '0', ' ', '*', ' '] + nick
}

pub open spec fn nick_command(nick: Seq<char>) -> Seq<char> {
    seq!['N', 'I', 'C', 'K', ' '] + nick
}

pub open spec fn pong_command(token: Seq<char>) -> Seq<char> {
    seq!['P', 'O', 'N', 'G', ' '] + token
}

pub open spec fn join_command(channel: Seq<char>) -> Seq<char> {
    seq!['J', 'O', 'I', 'N', ' ', '#'] + channel
}

pub open spec fn xdcc_command(bot: Seq<char>, pack: nat) -> Seq<char> {
    seq!['P', 'R', 'I', 'V', 'M', 'S', 'G', ' '] + bot
        + seq![' ', ':', 'X', 'D', 'C', 'C', ' ', 'G', 'E', 'T', ' ', '#'] + dec_chars(pack)
}

pub open spec fn quit_command() -> Seq<char> {
    seq!['Q', 'U', 'I', 'T']
}

/// One `JOIN` per configured channel, in configuration order.
pub open spec fn join_commands(channels: Seq<Seq<char>>) -> Seq<Seq<char>> {
    channels.map_values(|c: Seq<char>| join_command(c))
}

/// The views of a vector of outbound commands.
pub open spec fn command_views(cmds: Seq<String>) -> Seq<Seq<char>> {
    cmds.map_values(|c: String| c@)
}

/// The views of the decoded lines a feeding surfaced.
pub open spec fn string_views(xs: Seq<String>) -> Seq<Seq<char>> {
    xs.map_values(|c: String| c@)
}

/// The reaction of the machine to one decoded line.
pub struct SpecStep {
    pub commands: Seq<Seq<char>>,
    pub next: SessionState,
    pub offer: Option<OfferShape>,
    pub error: Option<ProtocolError>,
}

/// How the session reacts to one line: a PING is answered in place; a MODE
/// notice triggers the joins and the single pack request; an offer yields the
/// descriptor and the closing `QUIT`; malformed offers are fatal; anything
/// else is ignored. Once the offer is out (or the session closed), nothing is
/// ever sent again.
pub open spec fn step_line(cfg: SpecConfig, state: SessionState, l: Seq<char>) -> SpecStep {
    match state {
        SessionState::Registered | SessionState::AwaitingOffer => match classify_spec(l) {
            LineClass::Ping(tok) => SpecStep {
                commands: seq![pong_command(tok)],
                next: state,
                offer: None,
                error: None,
            },
            LineClass::Mode => SpecStep {
                commands: join_commands(cfg.channels) + seq![xdcc_command(cfg.bot, cfg.pack)],
                next: SessionState::AwaitingOffer,
                offer: None,
                error: None,
            },
            LineClass::Offer(o) => SpecStep {
                commands: seq![quit_command()],
                next: SessionState::OfferReceived,
                offer: Some(o),
                error: None,
            },
            LineClass::MalformedOffer => SpecStep {
                commands: Seq::empty(),
                next: state,
                offer: None,
                error: Some(ProtocolError::MalformedOffer),
            },
            LineClass::Other => SpecStep {
                commands: Seq::empty(),
                next: state,
                offer: None,
                error: None,
            },
        },
        SessionState::OfferReceived | SessionState::Closed => SpecStep {
            commands: Seq::empty(),
            next: state,
            offer: None,
            error: None,
        },
    }
}

/// The text of a raw framed line: trimmed of ASCII whitespace and decoded,
/// or nothing if the bytes are not valid text.
pub open spec fn line_of_raw(raw: Seq<u8>) -> Option<Seq<char>> {
    if valid_utf8(trim_ascii(raw)) {
        Some(decode_utf8(trim_ascii(raw)))
    } else {
        None
    }
}

/// The outcome of reacting to a run of framed lines.
pub struct SpecChunkResult {
    pub commands: Seq<Seq<char>>,
    pub lines: Seq<Seq<char>>,
    pub next: SessionState,
    pub offer: Option<OfferShape>,
    pub error: Option<ProtocolError>,
}

/// Fold the per-line reaction over the framed lines, in order. Processing
/// stops at the first fatal error (bytes that are not text, or a malformed
/// offer) and at the first offer; later lines of the chunk are dropped, as
/// the session is over either way.
pub open spec fn step_lines(cfg: SpecConfig, state: SessionState, raws: Seq<Seq<u8>>)
    -> SpecChunkResult
    decreases raws.len(),
{
    if raws.len() == 0 {
        SpecChunkResult {
            commands: Seq::empty(),
            lines: Seq::empty(),
            next: state,
            offer: None,
            error: None,
        }
    } else {
        match line_of_raw(raws[0]) {
            None => SpecChunkResult {
                commands: Seq::empty(),
                lines: Seq::empty(),
                next: state,
                offer: None,
                error: Some(ProtocolError::InvalidText),
            },
            Some(l) => {
                let s1 = step_line(cfg, state, l);
                if s1.error is Some {
                    SpecChunkResult {
                        commands: s1.commands,
                        lines: seq![l],
                        next: s1.next,
                        offer: None,
                        error: s1.error,
                    }
                } else if s1.offer is Some {
                    SpecChunkResult {
                        commands: s1.commands,
                        lines: seq![l],
                        next: s1.next,
                        offer: s1.offer,
                        error: None,
                    }
                } else {
                    let rest = step_lines(cfg, s1.next, raws.drop_first());
                    SpecChunkResult {
                        commands: s1.commands + rest.commands,
                        lines: seq![l] + rest.lines,
                        next: rest.next,
                        offer: rest.offer,
                        error: rest.error,
                    }
                }
            },
        }
    }
}

/// How an executable offer option relates to the specified one.
pub open spec fn offers_match(d: Option<TransferDescriptor>, o: Option<OfferShape>) -> bool {
    match d {
        Some(desc) => o matches Some(shape) && descriptor_matches(desc, shape),
        None => o is None,
    }
}

/// What one feeding of freshly read bytes produced: the protocol commands to
/// send, in order; the transfer descriptor, if the offer arrived; and the
/// fatal error, if one struck. Commands always precede the error or the
/// handoff, in wire order.
pub struct Step {
    pub commands: Vec<String>,
    /// The decoded lines that were reacted to, in order: the reporting hook
    /// for a verbose caller.
    pub lines: Vec<String>,
    pub offer: Option<TransferDescriptor>,
    pub error: Option<ProtocolError>,
}

/// A control session: configuration, protocol state, and the line framer for
/// the control connection's byte stream.
pub struct Session {
    config: Args,
    state: SessionState,
    framer: Framer,
}

fn user_line() -> (r: String)
    ensures
        r@ == user_command(username_chars()),
{
    let mut s = String::from_str("USER ");
    s.append("TestTest");
    s.append(" 0 * ");
    s.append("TestTest");
    proof {
        reveal_strlit("USER ");
        reveal_strlit("TestTest");
        reveal_strlit(" 0 * ");
        assert(s@ =~= user_command(username_chars()));
    }
    s
}

fn nick_line() -> (r: String)
    ensures
        r@ == nick_command(username_chars()),
{
    let mut s = String::from_str("NICK ");
    s.append("TestTest");
    proof {
        reveal_strlit("NICK ");
        reveal_strlit("TestTest");
        assert(s@ =~= nick_command(username_chars()));
    }
    s
}

fn pong_line(token: &String) -> (r: String)
    ensures
        r@ == pong_command(token@),
{
    let mut s = String::from_str("PONG ");
    s.append(token.as_str());
    proof {
        reveal_strlit("PONG ");
        assert(s@ =~= pong_command(token@));
    }
    s
}

fn join_line(channel: &String) -> (r: String)
    ensures
        r@ == join_command(channel@),
{
    let mut s = String::from_str("JOIN #");
    s.append(channel.as_str());
    proof {
        reveal_strlit("JOIN #");
        assert(s@ =~= join_command(channel@));
    }
    s
}

fn xdcc_line(bot: &String, pack: usize) -> (r: String)
    ensures
        r@ == xdcc_command(bot@, pack as nat),
{
    let mut s = String::from_str("PRIVMSG ");
    s.append(bot.as_str());
    s.append(" :XDCC GET #");
    push_decimal(&mut s, pack as u64);
    proof {
        reveal_strlit("PRIVMSG ");
        reveal_strlit(" :XDCC GET #");
        assert(s@ =~= xdcc_command(bot@, pack as nat));
    }
    s
}

fn quit_line() -> (r: String)
    ensures
        r@ == quit_command(),
{
    let s = String::from_str("QUIT");
    proof {
        reveal_strlit("QUIT");
        assert(s@ =~= quit_command());
    }
    s
}

/// The wire form of an outbound command: its UTF-8 bytes, terminated with
/// carriage return and line feed.
pub fn wire_format(cmd: &str) -> (r: Vec<u8>)
    ensures
        r@ == cmd.spec_bytes() + seq![13u8, 10u8],
{
    let mut r = cmd.as_bytes_vec();
    r.push(13);
    r.push(10);
    proof {
        assert(r@ =~= cmd.spec_bytes() + seq![13u8, 10u8]);
    }
    r
}

proof fn lemma_command_views_snoc(cmds: Seq<String>)
    requires
        cmds.len() > 0,
    ensures
        command_views(cmds) == command_views(cmds.drop_last()).push(cmds.last()@),
{
    assert(command_views(cmds) =~= command_views(cmds.drop_last()).push(cmds.last()@));
}

proof fn lemma_string_views_snoc(xs: Seq<String>)
    requires
        xs.len() > 0,
    ensures
        string_views(xs) == string_views(xs.drop_last()).push(xs.last()@),
{
    assert(string_views(xs) =~= string_views(xs.drop_last()).push(xs.last()@));
}

proof fn lemma_join_commands_snoc(chs: Seq<Seq<char>>)
    requires
        chs.len() > 0,
    ensures
        join_commands(chs) == join_commands(chs.drop_last()).push(join_command(chs.last())),
{
    assert(join_commands(chs) =~= join_commands(chs.drop_last()).push(join_command(chs.last())));
}

proof fn lemma_concat_snoc(a: Seq<Seq<char>>, b: Seq<Seq<char>>, x: Seq<char>)
    ensures
        (a + b).push(x) == a + b.push(x),
{
    assert((a + b).push(x) =~= a + b.push(x));
}

proof fn lemma_concat_assoc(a: Seq<Seq<char>>, b: Seq<Seq<char>>, c: Seq<Seq<char>>)
    ensures
        (a + b) + c == a + (b + c),
{
    assert((a + b) + c =~= a + (b + c));
}

proof fn lemma_push_is_concat_one(a: Seq<Seq<char>>, x: Seq<char>)
    ensures
        a.push(x) == a + seq![x],
{
    assert(a.push(x) =~= a + seq![x]);
}

impl Session {
    /// The configuration the machine steps under.
    pub closed spec fn cfg(&self) -> SpecConfig {
        config_view(&self.config)
    }

    /// The current protocol state.
    pub closed spec fn state_spec(&self) -> SessionState {
        self.state
    }

    /// The partial line carried between reads.
    pub closed spec fn buffered(&self) -> Seq<u8> {
        self.framer@
    }

    /// Open a session: the caller sends the returned registration commands
    /// (`USER`, then `NICK`) and the machine is registered.
    pub fn new(config: Args) -> (r: (Session, Vec<String>))
        ensures
            r.0.cfg() == config_view(&config),
            r.0.state_spec() == SessionState::Registered,
            r.0.buffered() == Seq::<u8>::empty(),
            command_views(r.1@) == seq![user_command(username_chars()), nick_command(
                username_chars(),
            )],
    {
        let mut cmds: Vec<String> = Vec::new();
        cmds.push(user_line());
        cmds.push(nick_line());
        proof {
            assert(command_views(cmds@) =~= seq![user_command(username_chars()), nick_command(
                username_chars(),
            )]);
        }
        let s = Session { config, state: SessionState::Registered, framer: Framer::new() };
        (s, cmds)
    }

    /// The configuration, unchanged since construction.
    pub fn config(&self) -> (r: &Args)
        ensures
            config_view(r) == self.cfg(),
    {
        &self.config
    }

    /// The current state.
    pub fn state(&self) -> (r: SessionState)
        ensures
            r == self.state_spec(),
    {
        self.state
    }

    /// The peer closed the control connection: a normal termination signal,
    /// not an error.
    pub fn on_connection_closed(&mut self)
        ensures
            final(self).state_spec() == SessionState::Closed,
            final(self).cfg() == old(self).cfg(),
            final(self).buffered() == old(self).buffered(),
    {
        self.state = SessionState::Closed;
    }

    /// Feed freshly read bytes from the control connection. Every line the
    /// chunk completes is classified and reacted to, in order; the returned
    /// step carries the outbound commands, the offer's descriptor if it
    /// arrived, and the fatal error if one struck.
    #[verifier::rlimit(100)]
    pub fn handle_chunk(&mut self, chunk: &[u8]) -> (r: Step)
        ensures
            ({
                let res = step_lines(old(self).cfg(), old(self).state_spec(), complete_lines(
                    old(self).buffered() + chunk@,
                ));
                &&& final(self).cfg() == old(self).cfg()
                &&& final(self).buffered() == remainder_of(old(self).buffered() + chunk@)
                &&& final(self).state_spec() == res.next
                &&& command_views(r.commands@) == res.commands
                &&& string_views(r.lines@) == res.lines
                &&& r.error == res.error
                &&& offers_match(r.offer, res.offer)
            }),
    {
        let ghost cfg = self.cfg();
        let raw_lines = self.framer.push_chunk(chunk);
        let ghost raws = line_views(raw_lines@);
        let ghost full = step_lines(cfg, old(self).state_spec(), raws);
        let mut commands: Vec<String> = Vec::new();
        let mut echoed: Vec<String> = Vec::new();
        let mut i: usize = 0;
        proof {
            assert(raws.skip(0) =~= raws);
        }
        while i < raw_lines.len()
            invariant
                i <= raw_lines@.len(),
                raws == line_views(raw_lines@),
                raws == complete_lines(old(self).buffered() + chunk@),
                cfg == old(self).cfg(),
                full == step_lines(cfg, old(self).state_spec(), raws),
                self.config == old(self).config,
                cfg == self.cfg(),
                self.framer@ == remainder_of(old(self).buffered() + chunk@),
                ({
                    let sub = step_lines(cfg, self.state_spec(), raws.skip(i as int));
                    &&& full.commands == command_views(commands@) + sub.commands
                    &&& full.lines == string_views(echoed@) + sub.lines
                    &&& full.next == sub.next
                    &&& full.offer == sub.offer
                    &&& full.error == sub.error
                }),
            decreases raw_lines@.len() - i,
        {
            let ghost sub = step_lines(cfg, self.state_spec(), raws.skip(i as int));
            proof {
                assert(raws.skip(i as int)[0] == raws[i as int]);
                assert(raws.skip(i as int).drop_first() =~= raws.skip(i as int + 1));
                assert(raws[i as int] == raw_lines@[i as int]@);
            }
            let trimmed = trim_line(&raw_lines[i]);
            match decode_line(&trimmed) {
                None => {
                    proof {
                        assert(line_of_raw(raws[i as int]) is None);
                        assert(full.commands =~= command_views(commands@));
                        assert(full.lines =~= string_views(echoed@));
                    }
                    return Step {
                        commands,
                        lines: echoed,
                        offer: None,
                        error: Some(ProtocolError::InvalidText),
                    };
                },
                Some(line) => {
                    let ghost lv = line@;
                    proof {
                        assert(line_of_raw(raws[i as int]) == Some(line@));
                    }
                    let ghost s1 = step_line(cfg, self.state_spec(), line@);
                    let active = match self.state {
                        SessionState::Registered => true,
                        SessionState::AwaitingOffer => true,
                        SessionState::OfferReceived => false,
                        SessionState::Closed => false,
                    };
                    if active {
                        match classify(line.as_str()) {
                            Ok(Message::Ping { token }) => {
                                let ghost before = commands@;
                                let c = pong_line(&token);
                                commands.push(c);
                                proof {
                                    assert(classify_spec(line@) is Ping);
                                    assert(commands@.drop_last() =~= before);
                                    lemma_command_views_snoc(commands@);
                                    lemma_push_is_concat_one(command_views(before),
                                        commands@.last()@);
                                    assert(s1.commands =~= seq![commands@.last()@]);
                                    assert(command_views(commands@) == command_views(before)
                                        + s1.commands);
                                    lemma_concat_assoc(command_views(before), s1.commands,
                                        step_lines(cfg, self.state_spec(), raws.skip(
                                        i as int + 1)).commands);
                                }
                            },
                            Ok(Message::ModeNotice) => {
                                let ghost prev = commands@;
                                let mut j: usize = 0;
                                while j < self.config.channel.len()
                                    invariant
                                        j <= self.config.channel@.len(),
                                        cfg == self.cfg(),
                                        self.config == old(self).config,
                                        cfg.channels == self.config.channel@.map_values(
                                            |c: String| c@,
                                        ),
                                        command_views(commands@) == command_views(prev)
                                            + join_commands(cfg.channels.take(j as int)),
                                    decreases self.config.channel@.len() - j,
                                {
                                    let ghost before = commands@;
                                    let c = join_line(&self.config.channel[j]);
                                    commands.push(c);
                                    j += 1;
                                    proof {
                                        assert(cfg.channels[j - 1] == self.config.channel@[j
                                            - 1]@);
                                        assert(commands@.drop_last() =~= before);
                                        lemma_command_views_snoc(commands@);
                                        assert(commands@.last()@ == join_command(
                                            cfg.channels[j - 1],
                                        ));
                                        assert(cfg.channels.take(j as int).drop_last()
                                            =~= cfg.channels.take(j - 1));
                                        assert(cfg.channels.take(j as int).last()
                                            == cfg.channels[j - 1]);
                                        lemma_join_commands_snoc(cfg.channels.take(j as int));
                                        lemma_concat_snoc(command_views(prev), join_commands(
                                            cfg.channels.take(j - 1)), join_command(
                                            cfg.channels[j - 1]));
                                        assert(command_views(commands@) == command_views(prev)
                                            + join_commands(cfg.channels.take(j as int)));
                                    }
                                }
                                let ghost joined = commands@;
                                let x = xdcc_line(&self.config.bot, self.config.pack);
                                commands.push(x);
                                self.state = SessionState::AwaitingOffer;
                                proof {
                                    assert(classify_spec(line@) is Mode);
                                    assert(cfg.channels.take(j as int) =~= cfg.channels);
                                    assert(commands@.drop_last() =~= joined);
                                    lemma_command_views_snoc(commands@);
                                    assert(commands@.last()@ == xdcc_command(cfg.bot,
                                        cfg.pack));
                                    lemma_concat_snoc(command_views(prev), join_commands(
                                        cfg.channels), xdcc_command(cfg.bot, cfg.pack));
                                    lemma_push_is_concat_one(join_commands(cfg.channels),
                                        xdcc_command(cfg.bot, cfg.pack));
                                    assert(command_views(commands@) == command_views(prev)
                                        + s1.commands);
                                    lemma_concat_assoc(command_views(prev), s1.commands,
                                        step_lines(cfg, self.state_spec(), raws.skip(
                                        i as int + 1)).commands);
                                }
                            },
                            Ok(Message::DccOffer(d)) => {
                                let ghost before = commands@;
                                let c = quit_line();
                                commands.push(c);
                                self.state = SessionState::OfferReceived;
                                proof {
                                    assert(classify_spec(line@) is Offer);
                                    assert(commands@.drop_last() =~= before);
                                    lemma_command_views_snoc(commands@);
                                    lemma_push_is_concat_one(command_views(before),
                                        commands@.last()@);
                                    assert(s1.commands =~= seq![commands@.last()@]);
                                    assert(full.commands == command_views(before)
                                        + s1.commands);
                                    assert(full.commands == command_views(commands@));
                                }
                                let ghost before_e = echoed@;
                                echoed.push(line);
                                proof {
                                    assert(echoed@.drop_last() =~= before_e);
                                    lemma_string_views_snoc(echoed@);
                                    lemma_push_is_concat_one(string_views(before_e), lv);
                                    assert(full.lines == string_views(echoed@));
                                }
                                return Step {
                                    commands,
                                    lines: echoed,
                                    offer: Some(d),
                                    error: None,
                                };
                            },
                            Ok(Message::Unrecognized) => {
                                proof {
                                    assert(classify_spec(line@) is Other);
                                    assert(command_views(commands@) + s1.commands
                                        =~= command_views(commands@));
                                }
                            },
                            Err(e) => {
                                proof {
                                    assert(classify_spec(line@) is MalformedOffer);
                                    assert(command_views(commands@) + s1.commands
                                        =~= command_views(commands@));
                                }
                                let ghost before_e = echoed@;
                                echoed.push(line);
                                proof {
                                    assert(echoed@.drop_last() =~= before_e);
                                    lemma_string_views_snoc(echoed@);
                                    lemma_push_is_concat_one(string_views(before_e), lv);
                                    assert(full.lines == string_views(echoed@));
                                }
                                return Step {
                                    commands,
                                    lines: echoed,
                                    offer: None,
                                    error: Some(e),
                                };
                            },
                        }
                    } else {
                        proof {
                            assert(s1.commands =~= Seq::<Seq<char>>::empty());
                            assert(command_views(commands@) + s1.commands =~= command_views(
                                commands@,
                            ));
                        }
                    }
                    let ghost before_e = echoed@;
                    echoed.push(line);
                    proof {
                        assert(echoed@.drop_last() =~= before_e);
                        lemma_string_views_snoc(echoed@);
                        lemma_push_is_concat_one(string_views(before_e), lv);
                        lemma_concat_assoc(string_views(before_e), seq![lv], step_lines(cfg,
                            self.state_spec(), raws.skip(i as int + 1)).lines);
                    }
                    i += 1;
                },
            }
        }
        proof {
            assert(raws.skip(i as int) =~= Seq::<Seq<u8>>::empty());
            assert(full.commands =~= command_views(commands@));
            assert(full.lines =~= string_views(echoed@));
        }
        Step { commands, lines: echoed, offer: None, error: None }
    }
}

/// Single-offer termination: whenever a feeding produces an offer, the
/// closing `QUIT` is the last command it emits — nothing follows it.
pub proof fn lemma_offer_ends_in_quit(cfg: SpecConfig, state: SessionState, raws: Seq<Seq<u8>>)
    ensures
        ({
            let res = step_lines(cfg, state, raws);
            res.offer is Some ==> res.commands.len() >= 1 && res.commands.last()
                == quit_command() && res.next == SessionState::OfferReceived
        }),
    decreases raws.len(),
{
    if raws.len() == 0 {
    } else {
        match line_of_raw(raws[0]) {
            None => {},
            Some(l) => {
                let s1 = step_line(cfg, state, l);
                if s1.error is Some {
                } else if s1.offer is Some {
                } else {
                    lemma_offer_ends_in_quit(cfg, s1.next, raws.drop_first());
                    let rest = step_lines(cfg, s1.next, raws.drop_first());
                    if rest.offer is Some {
                        assert((s1.commands + rest.commands).last() == rest.commands.last());
                    }
                }
            },
        }
    }
}

/// Single-offer termination, second half: once the offer is out (or the
/// session closed), no feeding ever emits a command or another offer.
pub proof fn lemma_finished_session_is_silent(
    cfg: SpecConfig,
    state: SessionState,
    raws: Seq<Seq<u8>>,
)
    requires
        state is OfferReceived || state is Closed,
    ensures
        ({
            let res = step_lines(cfg, state, raws);
            res.commands == Seq::<Seq<char>>::empty() && res.offer is None && res.next == state
        }),
    decreases raws.len(),
{
    if raws.len() == 0 {
    } else {
        match line_of_raw(raws[0]) {
            None => {},
            Some(l) => {
                lemma_finished_session_is_silent(cfg, state, raws.drop_first());
                let s1 = step_line(cfg, state, l);
                let rest = step_lines(cfg, state, raws.drop_first());
                assert(s1.commands + rest.commands =~= Seq::<Seq<char>>::empty());
            },
        }
    }
}

} // verus!

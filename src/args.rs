//! The command line: a natural form `<STATE>... from <FROM> to <TO>` and a
//! flag form `--from <FROM> --to <TO> --state <STATES>...`, both read into one
//! request.

use vstd::prelude::*;
use crate::text::{chars_of, parse_state_arg, state_list, views};

verus! {

/// A request to copy icon states: where they come from, where they go, and
/// which ones.
pub struct DmiCopyArgs {
    /// The file to read the icon states from.
    pub from: String,
    /// The file to copy the icon states into.
    pub to: String,
    /// The names of the icon states to copy, in the order given.
    pub icon_states: Vec<String>,
}

/// What a request means: source path, destination path and state names.
pub struct Request {
    pub source: Seq<char>,
    pub destination: Seq<char>,
    pub states: Seq<Seq<char>>,
}

impl View for DmiCopyArgs {
    type V = Request;

    open spec fn view(&self) -> Request {
        Request { source: self.from@, destination: self.to@, states: views(self.icon_states@) }
    }
}

/// Why a command line was refused.
#[derive(PartialEq, Eq, Structural, Clone, Copy, Debug)]
pub enum ArgsError {
    /// `from` came before any state name.
    NoStatesBeforeFrom,
    /// `to` came before the source file was given.
    SourceNotBeforeTo,
    /// The source file was followed by something other than `to`.
    ExpectedTo,
    /// Something followed the destination file.
    UnexpectedArguments,
    /// The natural form ended without a destination file.
    MissingDestination,
    /// The natural form ended without a source file.
    MissingSource,
    /// The natural form ended without either file.
    MissingSourceAndDestination,
    /// The flag form lacks `--from`.
    MissingFrom,
    /// The flag form lacks `--to`.
    MissingTo,
    /// The flag form lacks `--state`.
    MissingState,
    /// Words of the natural form were mixed with flags.
    MixedSyntax,
    /// Nothing was asked for.
    NoArguments,
}

impl ArgsError {
    /// A message for the user.
    pub fn message(&self) -> &'static str {
        match self {
            ArgsError::NoStatesBeforeFrom => "No icon states specified before 'from'",
            ArgsError::SourceNotBeforeTo => "Source file not specified before 'to'",
            ArgsError::ExpectedTo => "Expected 'to' keyword",
            ArgsError::UnexpectedArguments => "Unexpected additional arguments",
            ArgsError::MissingDestination => "Missing destination file",
            ArgsError::MissingSource => "Missing source file",
            ArgsError::MissingSourceAndDestination => "Missing both source and destination file",
            ArgsError::MissingFrom => "Missing required argument: --from",
            ArgsError::MissingTo => "Missing required argument: --to",
            ArgsError::MissingState => "Missing required argument: --state",
            ArgsError::MixedSyntax => "The natural syntax cannot be mixed with flags",
            ArgsError::NoArguments => "No arguments given",
        }
    }
}

/// Where the natural form stands after some of its words.
#[derive(PartialEq, Eq, Structural, Clone, Copy, Debug)]
pub enum ParseMode {
    /// Collecting state names.
    States,
    /// `from` was read; the source file comes next.
    From,
    /// The source file was read; `to` comes next.
    WaitingTo,
    /// `to` was read; the destination file comes next.
    To,
    /// The destination file was read; nothing may follow.
    Done,
}

/// The keyword that introduces the source file.
pub open spec fn from_kw() -> Seq<char> {
    seq!['f', 'r', 'o', 'm']
}

/// The keyword that introduces the destination file.
pub open spec fn to_kw() -> Seq<char> {
    seq!['t', 'o']
}

/// What the natural form has gathered so far.
pub struct NaturalView {
    pub mode: ParseMode,
    pub states: Seq<Seq<char>>,
    pub from: Option<Seq<char>>,
    pub to: Option<Seq<char>>,
}

pub open spec fn natural_start() -> NaturalView {
    NaturalView { mode: ParseMode::States, states: Seq::empty(), from: None, to: None }
}

/// One word of the natural form.
pub open spec fn natural_step(st: NaturalView, tok: Seq<char>) -> Result<NaturalView, ArgsError> {
    match st.mode {
        ParseMode::States => {
            if tok == from_kw() {
                if st.states.len() > 0 {
                    Ok(NaturalView { mode: ParseMode::From, ..st })
                } else {
                    Err(ArgsError::NoStatesBeforeFrom)
                }
            } else if tok == to_kw() {
                Err(ArgsError::SourceNotBeforeTo)
            } else {
                Ok(NaturalView { states: st.states.push(tok), ..st })
            }
        },
        ParseMode::From => {
            if tok == to_kw() {
                Err(ArgsError::SourceNotBeforeTo)
            } else {
                Ok(NaturalView { mode: ParseMode::WaitingTo, from: Some(tok), ..st })
            }
        },
        ParseMode::WaitingTo => {
            if tok == to_kw() {
                Ok(NaturalView { mode: ParseMode::To, ..st })
            } else {
                Err(ArgsError::ExpectedTo)
            }
        },
        ParseMode::To => Ok(NaturalView { mode: ParseMode::Done, to: Some(tok), ..st }),
        ParseMode::Done => Err(ArgsError::UnexpectedArguments),
    }
}

/// The words of the natural form read from left to right; the first error stops it.
pub open spec fn natural_run(toks: Seq<Seq<char>>) -> Result<NaturalView, ArgsError>
    decreases toks.len(),
{
    if toks.len() == 0 {
        Ok(natural_start())
    } else {
        match natural_run(toks.drop_last()) {
            Ok(st) => natural_step(st, toks.last()),
            Err(e) => Err(e),
        }
    }
}

/// The request at the end of the words, or why there is none.
pub open spec fn natural_finish(st: NaturalView) -> Result<Request, ArgsError> {
    match (st.from, st.to) {
        (Some(f), Some(t)) => Ok(Request { source: f, destination: t, states: st.states }),
        (Some(_), None) => Err(ArgsError::MissingDestination),
        (None, Some(_)) => Err(ArgsError::MissingSource),
        (None, None) => Err(ArgsError::MissingSourceAndDestination),
    }
}

/// What the natural form makes of a list of words.
pub open spec fn natural_syntax(toks: Seq<Seq<char>>) -> Result<Request, ArgsError> {
    match natural_run(toks) {
        Ok(st) => natural_finish(st),
        Err(e) => Err(e),
    }
}

pub open spec fn opt_view(o: Option<String>) -> Option<Seq<char>> {
    match o {
        Some(s) => Some(s@),
        None => None,
    }
}

pub open spec fn result_view(r: Result<DmiCopyArgs, ArgsError>) -> Result<Request, ArgsError> {
    match r {
        Ok(a) => Ok(a@),
        Err(e) => Err(e),
    }
}

/// The natural form part way through its words.
struct NaturalParser {
    mode: ParseMode,
    icon_states: Vec<String>,
    from: Option<String>,
    to: Option<String>,
}

impl View for NaturalParser {
    type V = NaturalView;

    closed spec fn view(&self) -> NaturalView {
        NaturalView {
            mode: self.mode,
            states: views(self.icon_states@),
            from: opt_view(self.from),
            to: opt_view(self.to),
        }
    }
}

fn is_from_kw(cs: &Vec<char>) -> (r: bool)
    ensures
        r == (cs@ == from_kw()),
{
    let r = cs.len() == 4 && cs[0] == 'f' && cs[1] == 'r' && cs[2] == 'o' && cs[3] == 'm';
    proof {
        if r {
            assert(cs@ =~= from_kw());
        }
    }
    r
}

fn is_to_kw(cs: &Vec<char>) -> (r: bool)
    ensures
        r == (cs@ == to_kw()),
{
    let r = cs.len() == 2 && cs[0] == 't' && cs[1] == 'o';
    proof {
        if r {
            assert(cs@ =~= to_kw());
        }
    }
    r
}

impl NaturalParser {
    fn new() -> (r: NaturalParser)
        ensures
            r@ == natural_start(),
    {
        let r = NaturalParser { mode: ParseMode::States, icon_states: Vec::new(), from: None, to: None };
        assert(views(r.icon_states@) =~= Seq::empty());
        r
    }

    /// Reads one word.
    fn step(self, tok: &String) -> (r: Result<NaturalParser, ArgsError>)
        ensures
            match r {
                Ok(p) => natural_step(self@, tok@) == Ok::<NaturalView, ArgsError>(p@),
                Err(e) => natural_step(self@, tok@) == Err::<NaturalView, ArgsError>(e),
            },
    {
        let cs = chars_of(tok);
        let NaturalParser { mode, icon_states, from, to } = self;
        match mode {
            ParseMode::States => {
                if is_from_kw(&cs) {
                    if icon_states.len() > 0 {
                        Ok(NaturalParser { mode: ParseMode::From, icon_states, from, to })
                    } else {
                        Err(ArgsError::NoStatesBeforeFrom)
                    }
                } else if is_to_kw(&cs) {
                    Err(ArgsError::SourceNotBeforeTo)
                } else {
                    let mut icon_states = icon_states;
                    let ghost before = icon_states@;
                    icon_states.push(tok.clone());
                    assert(views(icon_states@) =~= views(before).push(tok@));
                    Ok(NaturalParser { mode, icon_states, from, to })
                }
            },
            ParseMode::From => {
                if is_to_kw(&cs) {
                    Err(ArgsError::SourceNotBeforeTo)
                } else {
                    Ok(NaturalParser { mode: ParseMode::WaitingTo, icon_states, from: Some(tok.clone()), to })
                }
            },
            ParseMode::WaitingTo => {
                if is_to_kw(&cs) {
                    Ok(NaturalParser { mode: ParseMode::To, icon_states, from, to })
                } else {
                    Err(ArgsError::ExpectedTo)
                }
            },
            ParseMode::To => Ok(NaturalParser { mode: ParseMode::Done, icon_states, from, to: Some(tok.clone()) }),
            ParseMode::Done => Err(ArgsError::UnexpectedArguments),
        }
    }

    /// Ends the words.
    fn finish(self) -> (r: Result<DmiCopyArgs, ArgsError>)
        ensures
            result_view(r) == natural_finish(self@),
    {
        match (self.from, self.to) {
            (Some(from), Some(to)) => Ok(DmiCopyArgs { from, to, icon_states: self.icon_states }),
            (Some(_), None) => Err(ArgsError::MissingDestination),
            (None, Some(_)) => Err(ArgsError::MissingSource),
            (None, None) => Err(ArgsError::MissingSourceAndDestination),
        }
    }
}

impl DmiCopyArgs {
    /// Reads the natural form `<STATE>... from <FROM> to <TO>`.
    pub fn parse_natural_syntax(args: &Vec<String>) -> (r: Result<DmiCopyArgs, ArgsError>)
        ensures
            result_view(r) == natural_syntax(views(args@)),
    {
        let mut parser = NaturalParser::new();
        let mut i: usize = 0;
        while i < args.len()
            invariant
                i <= args@.len(),
                natural_run(views(args@).take(i as int)) == Ok::<NaturalView, ArgsError>(parser@),
            decreases args@.len() - i,
        {
            assert(views(args@).take(i + 1).drop_last() =~= views(args@).take(i as int));
            match parser.step(&args[i]) {
                Ok(p) => {
                    parser = p;
                },
                Err(e) => {
                    proof {
                        lemma_run_error_sticks(views(args@).take(i + 1), views(args@).skip(i + 1));
                        assert(views(args@).take(i + 1) + views(args@).skip(i + 1) =~= views(args@));
                    }
                    return Err(e);
                },
            }
            i = i + 1;
        }
        assert(views(args@).take(i as int) =~= views(args@));
        parser.finish()
    }
}

/// Once the natural form has failed, more words do not mend it.
pub proof fn lemma_run_error_sticks(p: Seq<Seq<char>>, q: Seq<Seq<char>>)
    requires
        natural_run(p) is Err,
    ensures
        natural_run(p + q) == natural_run(p),
    decreases q.len(),
{
    if q.len() == 0 {
        assert(p + q =~= p);
    } else {
        lemma_run_error_sticks(p, q.drop_last());
        assert((p + q).drop_last() =~= p + q.drop_last());
    }
}

/// The state names that a list of `--state` arguments gives, in order.
pub open spec fn flag_states(raws: Seq<Seq<char>>) -> Seq<Seq<char>>
    decreases raws.len(),
{
    if raws.len() == 0 {
        Seq::empty()
    } else {
        flag_states(raws.drop_last()) + state_list(raws.last())
    }
}

/// What the flag form makes of `--from`, `--to` and the `--state` arguments.
pub open spec fn flag_syntax(
    from: Option<Seq<char>>,
    to: Option<Seq<char>>,
    states: Option<Seq<Seq<char>>>,
) -> Result<Request, ArgsError> {
    match (from, to, states) {
        (None, _, _) => Err(ArgsError::MissingFrom),
        (Some(_), None, _) => Err(ArgsError::MissingTo),
        (Some(_), Some(_), None) => Err(ArgsError::MissingState),
        (Some(f), Some(t), Some(raws)) => Ok(
            Request { source: f, destination: t, states: flag_states(raws) },
        ),
    }
}

pub open spec fn opt_views(o: Option<Vec<String>>) -> Option<Seq<Seq<char>>> {
    match o {
        Some(v) => Some(views(v@)),
        None => None,
    }
}

/// What a whole command line makes: the natural form where its words are
/// given, else the flag form.
pub open spec fn command_line(
    natural: Seq<Seq<char>>,
    from: Option<Seq<char>>,
    to: Option<Seq<char>>,
    states: Option<Seq<Seq<char>>>,
) -> Result<Request, ArgsError> {
    if natural.len() > 0 {
        if from is Some || to is Some || states is Some {
            Err(ArgsError::MixedSyntax)
        } else {
            natural_syntax(natural)
        }
    } else if from is None && to is None && states is None {
        Err(ArgsError::NoArguments)
    } else {
        flag_syntax(from, to, states)
    }
}

impl DmiCopyArgs {
    /// Reads the flag form: `from` and `to` are the values of `--from` and
    /// `--to`, `states` the values of every `--state`, each a comma-separated
    /// list; `None` stands for a flag that was not given.
    pub fn parse_flag_syntax(
        from: Option<String>,
        to: Option<String>,
        states: Option<Vec<String>>,
    ) -> (r: Result<DmiCopyArgs, ArgsError>)
        ensures
            result_view(r) == flag_syntax(opt_view(from), opt_view(to), opt_views(states)),
    {
        match (from, to, states) {
            (None, _, _) => Err(ArgsError::MissingFrom),
            (Some(_), None, _) => Err(ArgsError::MissingTo),
            (Some(_), Some(_), None) => Err(ArgsError::MissingState),
            (Some(from), Some(to), Some(raws)) => {
                let mut icon_states: Vec<String> = Vec::new();
                let mut i: usize = 0;
                while i < raws.len()
                    invariant
                        i <= raws@.len(),
                        views(icon_states@) == flag_states(views(raws@).take(i as int)),
                    decreases raws@.len() - i,
                {
                    let mut names = parse_state_arg(&raws[i]);
                    let ghost before = icon_states@;
                    let ghost got = names@;
                    icon_states.append(&mut names);
                    assert(views(raws@).take(i + 1).drop_last() =~= views(raws@).take(i as int));
                    assert(views(icon_states@) =~= views(before) + views(got));
                    i = i + 1;
                }
                assert(views(raws@).take(i as int) =~= views(raws@));
                Ok(DmiCopyArgs { from, to, icon_states })
            },
        }
    }

    /// Reads a whole command line: `natural` holds the words that are no
    /// flag; the others are as for [`DmiCopyArgs::parse_flag_syntax`].
    pub fn parse_command_line(
        natural: &Vec<String>,
        from: Option<String>,
        to: Option<String>,
        states: Option<Vec<String>>,
    ) -> (r: Result<DmiCopyArgs, ArgsError>)
        ensures
            result_view(r) == command_line(
                views(natural@),
                opt_view(from),
                opt_view(to),
                opt_views(states),
            ),
    {
        if natural.len() > 0 {
            if from.is_some() || to.is_some() || states.is_some() {
                Err(ArgsError::MixedSyntax)
            } else {
                DmiCopyArgs::parse_natural_syntax(natural)
            }
        } else if from.is_none() && to.is_none() && states.is_none() {
            Err(ArgsError::NoArguments)
        } else {
            DmiCopyArgs::parse_flag_syntax(from, to, states)
        }
    }
}

/// While only state names have been read, the natural form is still
/// collecting them, in order.
proof fn lemma_run_states(states: Seq<Seq<char>>, k: int)
    requires
        0 <= k <= states.len(),
        forall|i: int| 0 <= i < states.len() ==> states[i] != from_kw() && states[i] != to_kw(),
    ensures
        natural_run(states.take(k)) == Ok::<NaturalView, ArgsError>(
            NaturalView { mode: ParseMode::States, states: states.take(k), from: None, to: None },
        ),
    decreases k,
{
    if k == 0 {
        assert(states.take(0) =~= Seq::<Seq<char>>::empty());
    } else {
        lemma_run_states(states, k - 1);
        assert(states.take(k).drop_last() =~= states.take(k - 1));
        assert(states.take(k - 1).push(states[k - 1]) =~= states.take(k));
    }
}

/// The natural form `s1 s2 ... from F to T` gives source `F`, destination
/// `T` and the states `s1 s2 ...` in their order, whenever at least one state
/// is named, no state name is a keyword, and `F` is not `to`.
pub proof fn lemma_natural_syntax_accepts(
    states: Seq<Seq<char>>,
    source: Seq<char>,
    destination: Seq<char>,
)
    requires
        states.len() > 0,
        forall|i: int| 0 <= i < states.len() ==> states[i] != from_kw() && states[i] != to_kw(),
        source != to_kw(),
    ensures
        natural_syntax(states + seq![from_kw(), source, to_kw(), destination]) == Ok::<
            Request,
            ArgsError,
        >(Request { source, destination, states }),
{
    let toks = states + seq![from_kw(), source, to_kw(), destination];
    lemma_run_states(states, states.len() as int);
    assert(states.take(states.len() as int) =~= states);
    assert(toks.drop_last().drop_last().drop_last().drop_last() =~= states);
    assert(toks.drop_last().drop_last().drop_last().last() == from_kw());
    assert(toks.drop_last().drop_last().last() == source);
    assert(toks.drop_last().last() == to_kw());
    assert(toks.last() == destination);
    assert(from_kw() != to_kw()) by {
        assert(from_kw().len() != to_kw().len());
    }
    let t1 = toks.drop_last().drop_last().drop_last();
    let t2 = toks.drop_last().drop_last();
    let t3 = toks.drop_last();
    let s0 = NaturalView { mode: ParseMode::States, states, from: None, to: None };
    assert(natural_run(t1) == natural_step(s0, from_kw()));
    assert(natural_run(t1) == Ok::<NaturalView, ArgsError>(
        NaturalView { mode: ParseMode::From, ..s0 },
    ));
    assert(natural_run(t2) == Ok::<NaturalView, ArgsError>(
        NaturalView { mode: ParseMode::WaitingTo, from: Some(source), ..s0 },
    ));
    assert(natural_run(t3) == Ok::<NaturalView, ArgsError>(
        NaturalView { mode: ParseMode::To, from: Some(source), ..s0 },
    ));
    assert(natural_run(toks) == Ok::<NaturalView, ArgsError>(
        NaturalView { mode: ParseMode::Done, from: Some(source), to: Some(destination), ..s0 },
    ));
}

/// Reachable stages of the natural form: which of the files are known in each.
pub open spec fn natural_consistent(st: NaturalView) -> bool {
    match st.mode {
        ParseMode::States => st.from is None && st.to is None,
        ParseMode::From => st.from is None && st.to is None && st.states.len() > 0,
        ParseMode::WaitingTo => st.from is Some && st.to is None && st.states.len() > 0,
        ParseMode::To => st.from is Some && st.to is None && st.states.len() > 0,
        ParseMode::Done => st.from is Some && st.to is Some && st.states.len() > 0,
    }
}

proof fn lemma_run_consistent(toks: Seq<Seq<char>>)
    requires
        natural_run(toks) is Ok,
    ensures
        natural_consistent(natural_run(toks)->Ok_0),
    decreases toks.len(),
{
    if toks.len() > 0 {
        lemma_run_consistent(toks.drop_last());
    }
}

/// The natural form fails where `from` comes before any state name, where
/// `to` comes before the source file is known, or where any word follows the
/// destination file, whatever comes after.
pub proof fn lemma_natural_syntax_rejects(
    before: Seq<Seq<char>>,
    word: Seq<char>,
    after: Seq<Seq<char>>,
)
    requires
        natural_run(before) is Ok,
        ({
            let st = natural_run(before)->Ok_0;
            ||| (word == from_kw() && st.states.len() == 0)
            ||| (word == to_kw() && st.from is None)
            ||| st.to is Some
        }),
    ensures
        natural_syntax(before + seq![word] + after) is Err,
{
    lemma_run_consistent(before);
    let p = before + seq![word];
    assert(p.drop_last() =~= before);
    lemma_run_error_sticks(p, after);
}

/// `--state` arguments given one after another list their names one after
/// another: the names of `a` then those of `b`.
pub proof fn lemma_state_flags_concatenate(a: Seq<Seq<char>>, b: Seq<Seq<char>>)
    ensures
        flag_states(a + b) == flag_states(a) + flag_states(b),
    decreases b.len(),
{
    if b.len() == 0 {
        assert(a + b =~= a);
        assert(flag_states(a) + flag_states(b) =~= flag_states(a));
    } else {
        lemma_state_flags_concatenate(a, b.drop_last());
        assert((a + b).drop_last() =~= a + b.drop_last());
        assert(flag_states(a + b) =~= flag_states(a) + flag_states(b));
    }
}

/// The flag form fails exactly when one of `--from`, `--to` and `--state`
/// is missing.
pub proof fn lemma_flag_syntax_needs_all(
    from: Option<Seq<char>>,
    to: Option<Seq<char>>,
    states: Option<Seq<Seq<char>>>,
)
    ensures
        flag_syntax(from, to, states) is Err <==> (from is None || to is None || states is None),
{
}

} // verus!

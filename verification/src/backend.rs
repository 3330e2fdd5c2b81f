//! Listing the windows of the user's desktop session.
//!
//! Which commands list the windows depends on the desktop. A lister starts a
//! listing; the listing says which command is to be run next, takes what the
//! command printed, and in the end holds the windows. Running the commands
//! is left to the caller.

use crate::text::{
    chars_of, lines, parse_u32, parse_unsigned, push_chars, split_lines, string_of, trim, trimmed,
    views,
};
use vstd::prelude::*;

verus! {

/// A window: its title and the process that owns it.
#[derive(Debug, Clone)]
pub struct WindowInfo {
    pub title: String,
    pub pid: u32,
}

/// The desktops whose windows can be listed.
#[derive(Clone, Copy, Debug, PartialEq, Eq, Structural)]
pub enum Backend {
    Kdotool,
    Niri,
}

/// Where a listing stands.
#[derive(Clone, Copy, Debug, PartialEq, Eq, Structural)]
pub enum Stage {
    /// `kdotool search` has been asked for the ids of the windows.
    AwaitIds,
    /// `kdotool getwindowpid` has been asked for the process of the first
    /// of the remaining windows.
    AwaitPid,
    /// `kdotool getwindowname` has been asked for the title of that window,
    /// whose process is known.
    AwaitName(u32),
    /// `niri msg` has been asked for the description of the windows.
    AwaitOutput,
    /// The description is to be decoded.
    AwaitWindows,
    /// The windows are known.
    Done,
    /// A command that lists the windows failed, or the description could
    /// not be decoded.
    Failed,
}

/// A listing, as plain values.
pub struct ListingView {
    pub stage: Stage,
    /// The ids of the windows not yet looked at.
    pub ids: Seq<Seq<char>>,
    /// The windows found so far: title and process.
    pub windows: Seq<(Seq<char>, u32)>,
    /// The description of the windows that is to be decoded.
    pub text: Seq<char>,
    /// Why the listing failed.
    pub error: Seq<char>,
}

/// What the caller is asked to do.
pub enum Request {
    /// Run this command as the user and hand back what it printed.
    Run(Vec<String>),
    /// Decode this description of windows, written in JSON.
    Decode(String),
    /// Nothing: the listing has come to its end.
    Nothing,
}

pub enum RequestView {
    Run(Seq<Seq<char>>),
    Decode(Seq<char>),
    Nothing,
}

/// What the caller hands back.
pub enum Reply {
    /// What the command printed.
    Output(String),
    /// The command could not be run, or did not succeed, and why.
    Failed(String),
    /// The windows that the description names.
    Windows(Vec<WindowInfo>),
    /// The description could not be decoded, and why.
    Malformed(String),
}

pub enum ReplyView {
    Output(Seq<char>),
    Failed(Seq<char>),
    Windows(Seq<(Seq<char>, u32)>),
    Malformed(Seq<char>),
}

/// Titles and processes of windows.
pub open spec fn window_views(ws: Seq<WindowInfo>) -> Seq<(Seq<char>, u32)> {
    ws.map_values(|w: WindowInfo| (w.title@, w.pid))
}

/// The texts of strings.
pub open spec fn string_views(ss: Seq<String>) -> Seq<Seq<char>> {
    ss.map_values(|s: String| s@)
}

impl View for Request {
    type V = RequestView;

    open spec fn view(&self) -> RequestView {
        match self {
            Request::Run(args) => RequestView::Run(string_views(args@)),
            Request::Decode(text) => RequestView::Decode(text@),
            Request::Nothing => RequestView::Nothing,
        }
    }
}

impl View for Reply {
    type V = ReplyView;

    open spec fn view(&self) -> ReplyView {
        match self {
            Reply::Output(text) => ReplyView::Output(text@),
            Reply::Failed(why) => ReplyView::Failed(why@),
            Reply::Windows(ws) => ReplyView::Windows(window_views(ws@)),
            Reply::Malformed(why) => ReplyView::Malformed(why@),
        }
    }
}

/// A listing that has just begun.
pub open spec fn begun(backend: Backend) -> ListingView {
    ListingView {
        stage: match backend {
            Backend::Kdotool => Stage::AwaitIds,
            Backend::Niri => Stage::AwaitOutput,
        },
        ids: seq![],
        windows: seq![],
        text: seq![],
        error: seq![],
    }
}

/// What the listing asks for.
pub open spec fn request_of(v: ListingView) -> RequestView {
    match v.stage {
        Stage::AwaitIds => RequestView::Run(seq!["kdotool"@, "search"@, "--name"@, "."@]),
        Stage::AwaitPid => RequestView::Run(seq!["kdotool"@, "getwindowpid"@, v.ids[0]]),
        Stage::AwaitName(_) => RequestView::Run(seq!["kdotool"@, "getwindowname"@, v.ids[0]]),
        Stage::AwaitOutput => RequestView::Run(seq!["niri"@, "msg"@, "-j"@, "windows"@]),
        Stage::AwaitWindows => RequestView::Decode(v.text),
        Stage::Done => RequestView::Nothing,
        Stage::Failed => RequestView::Nothing,
    }
}

/// Whether `reply` answers what the listing asks for: what a command
/// printed or why it failed where a command is to be run, windows or why
/// there are none where a description is to be decoded, and nothing where
/// the listing has come to its end.
pub open spec fn expects(v: ListingView, reply: ReplyView) -> bool {
    match v.stage {
        Stage::AwaitIds => reply is Output || reply is Failed,
        Stage::AwaitPid => (reply is Output || reply is Failed) && v.ids.len() > 0,
        Stage::AwaitName(_) => (reply is Output || reply is Failed) && v.ids.len() > 0,
        Stage::AwaitOutput => reply is Output || reply is Failed,
        Stage::AwaitWindows => reply is Windows || reply is Malformed,
        Stage::Done => false,
        Stage::Failed => false,
    }
}

/// The listing turned to the first of its remaining windows, or to its end
/// if none remains.
pub open spec fn at_next_window(v: ListingView) -> ListingView {
    ListingView {
        stage: if v.ids.len() == 0 {
            Stage::Done
        } else {
            Stage::AwaitPid
        },
        ..v
    }
}

/// The listing with the window that was asked about left out.
pub open spec fn passed_over(v: ListingView) -> ListingView {
    at_next_window(ListingView { ids: v.ids.drop_first(), ..v })
}

/// The listing, failed for the reason `error`.
pub open spec fn failed(v: ListingView, error: Seq<char>) -> ListingView {
    ListingView { stage: Stage::Failed, error, ..v }
}

/// The listing after `reply`. A reply that does not answer what the listing
/// asks for leaves it as it is.
///
/// Where the command that lists the windows fails, the listing fails, with
/// the reason given.
///
/// What a command printed is taken without the white space around it.
/// With `kdotool`, the ids of the windows are the lines that the search
/// printed, and each window in turn is asked for its process and then for
/// its title. A window of which one of
/// the two cannot be had, or whose process is not a number, is passed over.
/// With `niri`, what was printed is decoded in one piece.
pub open spec fn advance(v: ListingView, reply: ReplyView) -> ListingView {
    if !expects(v, reply) {
        v
    } else {
        match v.stage {
            Stage::AwaitIds => match reply {
                ReplyView::Output(text) => at_next_window(
                    ListingView { ids: lines(trimmed(text)), ..v },
                ),
                ReplyView::Failed(why) => failed(v, "failed to execute kdotool: "@ + why),
                _ => v,
            },
            Stage::AwaitPid => match reply {
                ReplyView::Output(text) => match parse_unsigned(trimmed(text), u32::MAX as nat) {
                    Some(pid) => ListingView { stage: Stage::AwaitName(pid as u32), ..v },
                    None => passed_over(v),
                },
                _ => passed_over(v),
            },
            Stage::AwaitName(pid) => match reply {
                ReplyView::Output(text) => at_next_window(
                    ListingView {
                        ids: v.ids.drop_first(),
                        windows: v.windows.push((trimmed(text), pid)),
                        ..v
                    },
                ),
                _ => passed_over(v),
            },
            Stage::AwaitOutput => match reply {
                ReplyView::Output(text) => ListingView {
                    stage: Stage::AwaitWindows,
                    text: trimmed(text),
                    ..v
                },
                ReplyView::Failed(why) => failed(v, "failed to execute niri: "@ + why),
                _ => v,
            },
            Stage::AwaitWindows => match reply {
                ReplyView::Windows(ws) => ListingView { stage: Stage::Done, windows: ws, ..v },
                ReplyView::Malformed(why) => failed(v, "failed to parse niri JSON: "@ + why),
                _ => v,
            },
            Stage::Done => v,
            Stage::Failed => v,
        }
    }
}

/// A listing of windows in progress.
pub struct Listing {
    stage: Stage,
    ids: Vec<Vec<char>>,
    next: usize,
    windows: Vec<WindowInfo>,
    text: String,
    error: String,
}

impl View for Listing {
    type V = ListingView;

    closed spec fn view(&self) -> ListingView {
        ListingView {
            stage: self.stage,
            ids: views(self.ids@).skip(self.next as int),
            windows: window_views(self.windows@),
            text: self.text@,
            error: self.error@,
        }
    }
}

impl Listing {
    /// While a window is asked about, there is such a window.
    #[verifier::type_invariant]
    spec fn inv(&self) -> bool {
        &&& self.next <= self.ids@.len()
        &&& (self.stage is AwaitPid || self.stage is AwaitName) ==> self.next < self.ids@.len()
    }

    fn begin(backend: Backend) -> (listing: Listing)
        ensures
            listing@ == begun(backend),
    {
        let listing = Listing {
            stage: match backend {
                Backend::Kdotool => Stage::AwaitIds,
                Backend::Niri => Stage::AwaitOutput,
            },
            ids: Vec::new(),
            next: 0,
            windows: Vec::new(),
            text: String::new(),
            error: String::new(),
        };
        assert(listing@.ids =~= begun(backend).ids);
        assert(listing@.windows =~= begun(backend).windows);
        listing
    }

    /// Where the listing stands.
    pub fn stage(&self) -> (stage: Stage)
        ensures
            stage == self@.stage,
    {
        self.stage
    }

    /// What is to be done next.
    pub fn request(&self) -> (request: Request)
        ensures
            request@ == request_of(self@),
    {
        proof {
            use_type_invariant(self);
        }
        match self.stage {
            Stage::AwaitIds => {
                let mut args: Vec<String> = Vec::new();
                args.push("kdotool".to_owned());
                args.push("search".to_owned());
                args.push("--name".to_owned());
                args.push(".".to_owned());
                assert(string_views(args@) =~= seq!["kdotool"@, "search"@, "--name"@, "."@]);
                Request::Run(args)
            },
            Stage::AwaitPid => {
                let mut args: Vec<String> = Vec::new();
                args.push("kdotool".to_owned());
                args.push("getwindowpid".to_owned());
                args.push(string_of(&self.ids[self.next]));
                assert(string_views(args@) =~= seq!["kdotool"@, "getwindowpid"@, self@.ids[0]]);
                Request::Run(args)
            },
            Stage::AwaitName(_) => {
                let mut args: Vec<String> = Vec::new();
                args.push("kdotool".to_owned());
                args.push("getwindowname".to_owned());
                args.push(string_of(&self.ids[self.next]));
                assert(string_views(args@) =~= seq!["kdotool"@, "getwindowname"@, self@.ids[0]]);
                Request::Run(args)
            },
            Stage::AwaitOutput => {
                let mut args: Vec<String> = Vec::new();
                args.push("niri".to_owned());
                args.push("msg".to_owned());
                args.push("-j".to_owned());
                args.push("windows".to_owned());
                assert(string_views(args@) =~= seq!["niri"@, "msg"@, "-j"@, "windows"@]);
                Request::Run(args)
            },
            Stage::AwaitWindows => Request::Decode(self.text.clone()),
            Stage::Done => Request::Nothing,
            Stage::Failed => Request::Nothing,
        }
    }

    /// Whether `reply` answers what the listing asks for.
    pub fn accepts(&self, reply: &Reply) -> (ok: bool)
        ensures
            ok == expects(self@, reply@),
    {
        proof {
            use_type_invariant(self);
        }
        match self.stage {
            Stage::AwaitIds | Stage::AwaitOutput | Stage::AwaitPid | Stage::AwaitName(_) => match reply {
                Reply::Output(_) => true,
                Reply::Failed(_) => true,
                _ => false,
            },
            Stage::AwaitWindows => match reply {
                Reply::Windows(_) => true,
                Reply::Malformed(_) => true,
                _ => false,
            },
            Stage::Done => false,
            Stage::Failed => false,
        }
    }

    /// Starts on the ids that the search printed.
    fn take_ids(&mut self, ids: Vec<Vec<char>>)
        requires
            old(self).stage is AwaitIds,
        ensures
            final(self)@ == at_next_window(ListingView { ids: views(ids@), ..old(self)@ }),
    {
        proof {
            use_type_invariant(&*self);
        }
        let more = ids.len() > 0;
        assert(views(ids@).skip(0) =~= views(ids@));
        self.next = 0;
        self.ids = ids;
        if more {
            self.stage = Stage::AwaitPid;
        } else {
            self.stage = Stage::Done;
        }
    }

    /// Leaves the window that was asked about and turns to the next.
    fn leave_window(&mut self)
        requires
            old(self).stage is AwaitPid || old(self).stage is AwaitName,
        ensures
            final(self)@ == passed_over(old(self)@),
    {
        proof {
            use_type_invariant(&*self);
            assert(views(self.ids@).skip(self.next as int).drop_first() =~= views(self.ids@).skip(
                self.next + 1,
            ));
        }
        assert(self.next < self.ids.len());
        self.stage = Stage::Done;
        self.next = self.next + 1;
        if self.next < self.ids.len() {
            self.stage = Stage::AwaitPid;
        }
    }

    /// Fails, for the reason `error`.
    fn fail(&mut self, error: String)
        ensures
            final(self)@ == failed(old(self)@, error@),
    {
        proof {
            use_type_invariant(&*self);
        }
        self.error = error;
        self.stage = Stage::Failed;
    }

    /// Takes the reply to what the listing asked for. A reply that does not
    /// answer it changes nothing.
    pub fn supply(&mut self, reply: Reply)
        ensures
            final(self)@ == advance(old(self)@, reply@),
    {
        proof {
            use_type_invariant(&*self);
        }
        if !self.accepts(&reply) {
            return ;
        }
        match reply {
            Reply::Output(raw) => {
                let text = trim(&chars_of(raw.as_str()));
                match self.stage {
                    Stage::AwaitIds => {
                        self.take_ids(split_lines(&text));
                    },
                    Stage::AwaitPid => {
                        match parse_u32(&text) {
                            Some(pid) => {
                                self.stage = Stage::AwaitName(pid);
                            },
                            None => {
                                self.leave_window();
                            },
                        }
                    },
                    Stage::AwaitName(pid) => {
                        let window = WindowInfo { title: string_of(&text), pid };
                        let mut windows: Vec<WindowInfo> = Vec::new();
                        std::mem::swap(&mut self.windows, &mut windows);
                        assert(window_views(windows@.push(window)) =~= window_views(windows@).push(
                            (text@, pid),
                        ));
                        windows.push(window);
                        self.windows = windows;
                        self.leave_window();
                    },
                    Stage::AwaitOutput => {
                        self.text = string_of(&text);
                        self.stage = Stage::AwaitWindows;
                    },
                    _ => {},
                }
            },
            Reply::Failed(why) => {
                match self.stage {
                    Stage::AwaitIds => {
                        let mut error = "failed to execute kdotool: ".to_owned();
                        push_chars(&mut error, &chars_of(why.as_str()));
                        self.fail(error);
                    },
                    Stage::AwaitOutput => {
                        let mut error = "failed to execute niri: ".to_owned();
                        push_chars(&mut error, &chars_of(why.as_str()));
                        self.fail(error);
                    },
                    Stage::AwaitPid | Stage::AwaitName(_) => {
                        self.leave_window();
                    },
                    _ => {},
                }
            },
            Reply::Windows(ws) => {
                self.windows = ws;
                self.stage = Stage::Done;
            },
            Reply::Malformed(why) => {
                let mut error = "failed to parse niri JSON: ".to_owned();
                push_chars(&mut error, &chars_of(why.as_str()));
                self.fail(error);
            },
        }
    }

    /// The windows, once the listing has come to its end, or why it failed;
    /// nothing while it is under way.
    pub fn outcome(self) -> (r: Option<Result<Vec<WindowInfo>, String>>)
        ensures
            match r {
                Some(Ok(ws)) => self@.stage is Done && window_views(ws@) == self@.windows,
                Some(Err(why)) => self@.stage is Failed && why@ == self@.error,
                None => !(self@.stage is Done) && !(self@.stage is Failed),
            },
    {
        match self.stage {
            Stage::Done => Some(Ok(self.windows)),
            Stage::Failed => Some(Err(self.error)),
            _ => None,
        }
    }
}

/// Something that knows how to list the windows of a desktop.
pub trait WindowLister {
    /// The desktop.
    spec fn backend(&self) -> Backend;

    /// Starts a listing of the windows.
    fn list_windows(&self) -> (listing: Listing)
        ensures
            listing@ == begun(self.backend()),
    ;
}

/// Lists windows with `kdotool`.
pub struct KdotoolLister;

/// Lists windows with `niri msg`.
pub struct NiriLister;

/// One of the listers.
pub enum Lister {
    Kdotool(KdotoolLister),
    Niri(NiriLister),
}

impl WindowLister for KdotoolLister {
    open spec fn backend(&self) -> Backend {
        Backend::Kdotool
    }

    fn list_windows(&self) -> (listing: Listing) {
        Listing::begin(Backend::Kdotool)
    }
}

impl WindowLister for NiriLister {
    open spec fn backend(&self) -> Backend {
        Backend::Niri
    }

    fn list_windows(&self) -> (listing: Listing) {
        Listing::begin(Backend::Niri)
    }
}

impl WindowLister for Lister {
    open spec fn backend(&self) -> Backend {
        match self {
            Lister::Kdotool(_) => Backend::Kdotool,
            Lister::Niri(_) => Backend::Niri,
        }
    }

    fn list_windows(&self) -> (listing: Listing) {
        match self {
            Lister::Kdotool(lister) => lister.list_windows(),
            Lister::Niri(lister) => lister.list_windows(),
        }
    }
}

/// The lister for a desktop.
pub fn make_lister(backend: Backend) -> (lister: Lister)
    ensures
        lister.backend() == backend,
{
    match backend {
        Backend::Kdotool => Lister::Kdotool(KdotoolLister),
        Backend::Niri => Lister::Niri(NiriLister),
    }
}

} // verus!

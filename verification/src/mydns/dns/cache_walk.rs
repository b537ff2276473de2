//! Answering from the persistent cache, following cached CNAMEs: the rows
//! cached for the name and type answer directly (a single `NX` row is a
//! cached NXDOMAIN); otherwise a cached CNAME of the name is followed to its
//! target, at most `MAX_CNAME_DEPTH` times, and the CNAME records are put in
//! front of the target's answer. The caller fetches the rows the walk asks
//! for and builds DNS records from them.
use vstd::prelude::*;
use crate::mydns::db::cache::CacheRow;
use crate::names::{chars_of, same_text, strip_trailing_dots, trim_trailing_dots};

verus! {

broadcast use vstd::string::group_string_axioms;

/// The deepest CNAME level followed.
pub const MAX_CNAME_DEPTH: usize = 10;

/// A cached CNAME that was followed: its owner and the row holding it.
#[derive(Debug)]
pub struct CnameLink {
    pub owner: String,
    pub value: String,
    pub ttl: i64,
}

/// What the walk asks for, or how it ended.
#[derive(Debug)]
pub enum WalkAction {
    /// Fetch the cached rows of `name` with the queried type.
    FetchRows(String),
    /// Fetch the cached CNAME rows of `name`.
    FetchCname(String),
    /// Answer with the records built from the last rows fetched, after the
    /// CNAME records of the followed links, in order.
    Answer(Vec<CnameLink>),
    /// A cached NXDOMAIN.
    NxDomain,
    /// The cache could not be read, or the CNAME chain is too deep.
    ServFail,
    /// The cache does not answer.
    NotFound,
}

/// What the last fetch found.
#[derive(Debug)]
pub enum WalkEvent {
    /// The rows of the name and queried type, with how many of them could be
    /// built into DNS records; `None` when the cache could not be read.
    Rows(Option<Vec<CacheRow>>, usize),
    /// The CNAME rows of the name; `None` when the cache could not be read.
    Cnames(Option<Vec<CacheRow>>),
}

/// Where the walk stands.
#[derive(Debug, Clone, Copy, PartialEq, Eq, Structural)]
pub enum WalkPhase {
    AwaitRows,
    AwaitCnames,
    Done,
}

/// The walk's state.
pub struct CacheWalk {
    name: String,
    follow_cnames: bool,
    links: Vec<CnameLink>,
    phase: WalkPhase,
}

/// The rows are a cached NXDOMAIN: exactly one row, whose value is `NX`.
pub open spec fn is_negative_row(rows: Seq<CacheRow>) -> bool {
    rows.len() == 1 && rows[0].value@ == "NX"@
}

impl CacheWalk {
    /// The name whose rows are asked for next.
    pub closed spec fn current(&self) -> Seq<char> {
        self.name@
    }

    /// The CNAME links followed so far.
    pub closed spec fn links(&self) -> Seq<CnameLink> {
        self.links@
    }

    pub closed spec fn phase(&self) -> WalkPhase {
        self.phase
    }

    /// CNAMEs are followed (the queried type is not CNAME).
    pub closed spec fn follows_cnames(&self) -> bool {
        self.follow_cnames
    }

    /// The walk's invariant: at most `MAX_CNAME_DEPTH` links; the name asked
    /// for is the first owner or the target of the last link.
    pub open spec fn wf(&self) -> bool {
        &&& self.links().len() <= MAX_CNAME_DEPTH
        &&& (self.links().len() > 0 ==> self.current() == strip_trailing_dots(self.links().last().value@))
    }

    /// An upper bound on the fetches left before the walk ends.
    pub open spec fn remaining_steps(&self) -> nat {
        match self.phase() {
            WalkPhase::Done => 0,
            WalkPhase::AwaitRows => (2 * (MAX_CNAME_DEPTH - self.links().len()) + 2) as nat,
            WalkPhase::AwaitCnames => (2 * (MAX_CNAME_DEPTH - self.links().len()) + 1) as nat,
        }
    }

    /// Starts a walk for `name`; `queried_cname` tells whether the queried
    /// type is CNAME, in which case CNAMEs are not followed.
    pub fn start(name: &str, queried_cname: bool) -> (r: (CacheWalk, WalkAction))
        ensures
            r.0.wf(),
            r.0.current() == name@,
            r.0.links().len() == 0,
            r.0.phase() == WalkPhase::AwaitRows,
            r.0.follows_cnames() == !queried_cname,
            r.1 matches WalkAction::FetchRows(n) && n@ == name@,
            r.0.remaining_steps() == 2 * MAX_CNAME_DEPTH + 2,
    {
        let w = CacheWalk {
            name: name.to_owned(),
            follow_cnames: !queried_cname,
            links: Vec::new(),
            phase: WalkPhase::AwaitRows,
        };
        (w, WalkAction::FetchRows(name.to_owned()))
    }

    /// Advances the walk by what the fetch it asked for found. Every step
    /// lowers the bound on the fetches left, so a walk ends after at most
    /// `2 * MAX_CNAME_DEPTH + 2` steps.
    ///
    /// Rows: unreadable is SERVFAIL; a single `NX` row is NXDOMAIN; rows of
    /// which some could be built answer with the links followed; otherwise
    /// the name's CNAMEs are fetched when they are followed, and the cache
    /// does not answer when they are not. CNAME rows: unreadable or none means
    /// the cache does not answer; otherwise the first row becomes a link and
    /// its target (without trailing dots) is asked for next, unless that
    /// would follow more than `MAX_CNAME_DEPTH` links, which is SERVFAIL.
    pub fn step(&mut self, event: WalkEvent) -> (a: WalkAction)
        requires
            old(self).wf(),
            old(self).phase() == WalkPhase::AwaitRows ==> event is Rows,
            old(self).phase() == WalkPhase::AwaitCnames ==> event is Cnames,
            old(self).phase() != WalkPhase::Done,
        ensures
            final(self).wf(),
            final(self).follows_cnames() == old(self).follows_cnames(),
            final(self).remaining_steps() < old(self).remaining_steps(),
            match event {
                WalkEvent::Rows(rows, built) => match rows {
                    None => a is ServFail && final(self).phase() == WalkPhase::Done,
                    Some(rs) => if rs@.len() > 0 && is_negative_row(rs@) {
                        a is NxDomain && final(self).phase() == WalkPhase::Done
                    } else if rs@.len() > 0 && built > 0 {
                        a matches WalkAction::Answer(ls) && ls@ == old(self).links() && final(self).phase()
                            == WalkPhase::Done
                    } else if old(self).follows_cnames() {
                        a matches WalkAction::FetchCname(n) && n@ == old(self).current() && final(self).phase()
                            == WalkPhase::AwaitCnames && final(self).current() == old(self).current()
                            && final(self).links() == old(self).links()
                    } else {
                        a is NotFound && final(self).phase() == WalkPhase::Done
                    },
                },
                WalkEvent::Cnames(rows) => match rows {
                    Some(rs) => if rs@.len() > 0 {
                        if old(self).links().len() + 1 > MAX_CNAME_DEPTH {
                            a is ServFail && final(self).phase() == WalkPhase::Done
                        } else {
                            &&& final(self).links().len() == old(self).links().len() + 1
                            &&& final(self).links().drop_last() == old(self).links()
                            &&& final(self).links().last().owner@ == old(self).current()
                            &&& final(self).links().last().value@ == rs@[0].value@
                            &&& final(self).links().last().ttl == rs@[0].ttl
                            &&& final(self).current() == strip_trailing_dots(rs@[0].value@)
                            &&& final(self).phase() == WalkPhase::AwaitRows
                            &&& a matches WalkAction::FetchRows(n) && n@ == final(self).current()
                        }
                    } else {
                        a is NotFound && final(self).phase() == WalkPhase::Done
                    },
                    None => a is NotFound && final(self).phase() == WalkPhase::Done,
                },
            },
    {
        match event {
            WalkEvent::Rows(rows, built) => match rows {
                None => {
                    self.phase = WalkPhase::Done;
                    WalkAction::ServFail
                },
                Some(rs) => {
                    if rs.len() == 1 && same_text(rs[0].value.as_str(), "NX") {
                        self.phase = WalkPhase::Done;
                        return WalkAction::NxDomain;
                    }
                    if rs.len() > 0 && built > 0 {
                        self.phase = WalkPhase::Done;
                        let mut links: Vec<CnameLink> = Vec::new();
                        std::mem::swap(&mut links, &mut self.links);
                        return WalkAction::Answer(links);
                    }
                    if self.follow_cnames {
                        self.phase = WalkPhase::AwaitCnames;
                        WalkAction::FetchCname(self.name.clone())
                    } else {
                        self.phase = WalkPhase::Done;
                        WalkAction::NotFound
                    }
                },
            },
            WalkEvent::Cnames(rows) => match rows {
                Some(rs) => {
                    if rs.len() == 0 {
                        self.phase = WalkPhase::Done;
                        return WalkAction::NotFound;
                    }
                    if self.links.len() + 1 > MAX_CNAME_DEPTH {
                        self.phase = WalkPhase::Done;
                        return WalkAction::ServFail;
                    }
                    let target = trim_trailing_dots(rs[0].value.as_str());
                    let link = CnameLink {
                        owner: self.name.clone(),
                        value: rs[0].value.clone(),
                        ttl: rs[0].ttl,
                    };
                    self.links.push(link);
                    self.name = target;
                    self.phase = WalkPhase::AwaitRows;
                    WalkAction::FetchRows(self.name.clone())
                },
                None => {
                    self.phase = WalkPhase::Done;
                    WalkAction::NotFound
                },
            },
        }
    }
}

} // verus!

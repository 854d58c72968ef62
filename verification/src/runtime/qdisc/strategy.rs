//! Kinds of host queueing disciplines and the profiles that configure them.

use vstd::prelude::*;
use std::str::FromStr;
use crate::text::{chars_are, join_text, keyword, keyword_of, string_of};
use crate::text_map::TextMap;

verus! {

/// A queueing discipline that the host packet scheduler offers.
#[derive(Debug, Clone, Copy, PartialEq, Eq, Structural)]
pub enum QdiscKind {
    Fifo,
    PfifoFast,
    Ecn,
    Red,
    FqCodel,
    Prio,
    Drr,
    Netem,
    Tbf,
}

impl QdiscKind {
    /// The kind named by the keyword `k`.
    pub open spec fn spec_of_keyword(k: Seq<char>) -> Option<QdiscKind> {
        if k == "fifo"@ || k == "pfifo"@ {
            Some(QdiscKind::Fifo)
        } else if k == "pfifo_fast"@ || k == "pfifofast"@ {
            Some(QdiscKind::PfifoFast)
        } else if k == "ecn"@ {
            Some(QdiscKind::Ecn)
        } else if k == "red"@ {
            Some(QdiscKind::Red)
        } else if k == "fq_codel"@ || k == "fqcodel"@ {
            Some(QdiscKind::FqCodel)
        } else if k == "prio"@ {
            Some(QdiscKind::Prio)
        } else if k == "drr"@ {
            Some(QdiscKind::Drr)
        } else if k == "netem"@ {
            Some(QdiscKind::Netem)
        } else if k == "tbf"@ {
            Some(QdiscKind::Tbf)
        } else {
            None
        }
    }

    /// What parsing `s` gives: the kind named by its trimmed, lower-cased
    /// form, or a message that quotes that form.
    pub open spec fn spec_parse(s: Seq<char>) -> Result<QdiscKind, Seq<char>> {
        match Self::spec_of_keyword(keyword(s)) {
            Some(kind) => Ok(kind),
            None => Err("unsupported qdisc kind: "@ + keyword(s)),
        }
    }

    /// The name under which the traffic-control tool knows the kind. ECN
    /// queueing is expressed there through `red`.
    pub open spec fn as_tc_name_spec(self) -> Seq<char> {
        match self {
            QdiscKind::Fifo => "pfifo"@,
            QdiscKind::PfifoFast => "pfifo_fast"@,
            QdiscKind::Ecn => "red"@,
            QdiscKind::Red => "red"@,
            QdiscKind::FqCodel => "fq_codel"@,
            QdiscKind::Prio => "prio"@,
            QdiscKind::Drr => "drr"@,
            QdiscKind::Netem => "netem"@,
            QdiscKind::Tbf => "tbf"@,
        }
    }

    /// The name under which the traffic-control tool knows the kind.
    pub fn as_tc_name(self) -> (r: &'static str)
        ensures
            r@ == self.as_tc_name_spec(),
    {
        match self {
            QdiscKind::Fifo => "pfifo",
            QdiscKind::PfifoFast => "pfifo_fast",
            QdiscKind::Ecn => "red",
            QdiscKind::Red => "red",
            QdiscKind::FqCodel => "fq_codel",
            QdiscKind::Prio => "prio",
            QdiscKind::Drr => "drr",
            QdiscKind::Netem => "netem",
            QdiscKind::Tbf => "tbf",
        }
    }

    /// Parses the name of a kind; surrounding whitespace and ASCII case are
    /// ignored. An unknown name is reported with its canonical form.
    pub fn parse(s: &str) -> (r: Result<QdiscKind, String>)
        ensures
            match r {
                Ok(kind) => Self::spec_parse(s@) == Ok::<QdiscKind, Seq<char>>(kind),
                Err(e) => Self::spec_parse(s@) == Err::<QdiscKind, Seq<char>>(e@),
            },
    {
        let k = keyword_of(s);
        if chars_are(&k, "fifo") || chars_are(&k, "pfifo") {
            Ok(QdiscKind::Fifo)
        } else if chars_are(&k, "pfifo_fast") || chars_are(&k, "pfifofast") {
            Ok(QdiscKind::PfifoFast)
        } else if chars_are(&k, "ecn") {
            Ok(QdiscKind::Ecn)
        } else if chars_are(&k, "red") {
            Ok(QdiscKind::Red)
        } else if chars_are(&k, "fq_codel") || chars_are(&k, "fqcodel") {
            Ok(QdiscKind::FqCodel)
        } else if chars_are(&k, "prio") {
            Ok(QdiscKind::Prio)
        } else if chars_are(&k, "drr") {
            Ok(QdiscKind::Drr)
        } else if chars_are(&k, "netem") {
            Ok(QdiscKind::Netem)
        } else if chars_are(&k, "tbf") {
            Ok(QdiscKind::Tbf)
        } else {
            let other = string_of(&k, 0, k.len());
            assert(k@.subrange(0, k@.len() as int) =~= k@);
            Err(join_text("unsupported qdisc kind: ", other.as_str()))
        }
    }
}

impl FromStr for QdiscKind {
    type Err = String;

    /// Parses the name of a kind as [`QdiscKind::parse`] does.
    fn from_str(s: &str) -> (r: Result<Self, Self::Err>)
        ensures
            match r {
                Ok(kind) => QdiscKind::spec_parse(s@) == Ok::<QdiscKind, Seq<char>>(kind),
                Err(e) => QdiscKind::spec_parse(s@) == Err::<QdiscKind, Seq<char>>(e@),
            },
    {
        QdiscKind::parse(s)
    }
}

/// How one interface's root discipline is to be configured.
#[derive(Debug, Clone, PartialEq, Eq)]
pub struct QdiscProfile {
    pub kind: QdiscKind,
    pub handle: Option<String>,
    pub parent: Option<String>,
    pub params: TextMap<String>,
}

impl QdiscProfile {
    /// A profile of `kind` with no handle, no parent and no parameters.
    pub fn new(kind: QdiscKind) -> (p: Self)
        ensures
            p.kind == kind,
            p.handle is None,
            p.parent is None,
            p.params@.len() == 0,
    {
        Self { kind, handle: None, parent: None, params: TextMap::new() }
    }

    /// A copy of the profile.
    pub fn duplicate(&self) -> (p: Self)
        ensures
            p.kind == self.kind,
            p.handle == self.handle,
            p.parent == self.parent,
            p.params@ == self.params@,
    {
        Self {
            kind: self.kind,
            handle: self.handle.clone(),
            parent: self.parent.clone(),
            params: self.params.duplicate(),
        }
    }
}

} // verus!

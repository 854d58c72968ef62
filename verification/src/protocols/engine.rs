//! The names of the protocol engines and the defaults that hang on them.

use vstd::prelude::*;
use crate::text::{chars_are, join_text, keyword, keyword_of, str_eq};

verus! {

/// The protocol engines that a daemon can run.
#[derive(Debug, Clone, Copy, PartialEq, Eq, Structural)]
pub enum EngineKind {
    Ospf,
    Rip,
    Ecmp,
    Topk,
    Spath,
    Ddr,
    Dgr,
    Octopus,
}

/// The engine that `name` names, spelled exactly.
pub open spec fn spec_engine_kind(name: Seq<char>) -> Option<EngineKind> {
    if name == "ospf"@ {
        Some(EngineKind::Ospf)
    } else if name == "rip"@ {
        Some(EngineKind::Rip)
    } else if name == "ecmp"@ {
        Some(EngineKind::Ecmp)
    } else if name == "topk"@ {
        Some(EngineKind::Topk)
    } else if name == "spath"@ {
        Some(EngineKind::Spath)
    } else if name == "ddr"@ {
        Some(EngineKind::Ddr)
    } else if name == "dgr"@ {
        Some(EngineKind::Dgr)
    } else if name == "octopus"@ {
        Some(EngineKind::Octopus)
    } else {
        None
    }
}

/// What is said of a name that names no engine: `irp` is the architecture
/// that the engines share and cannot run itself; any other name is unknown.
pub open spec fn spec_engine_error(name: Seq<char>) -> Seq<char> {
    if name == "irp"@ {
        "protocol 'irp' is an abstract architecture and cannot be instantiated; use a concrete protocol (ospf, rip, ecmp, topk, spath, ddr, dgr, octopus)"@
    } else {
        "unsupported protocol: "@ + name
    }
}

impl EngineKind {
    /// The engine named `name`, or why there is none.
    pub fn parse(name: &str) -> (r: Result<EngineKind, String>)
        ensures
            match r {
                Ok(kind) => spec_engine_kind(name@) == Some(kind),
                Err(e) => spec_engine_kind(name@) is None && e@ == spec_engine_error(name@),
            },
    {
        if str_eq(name, "ospf") {
            Ok(EngineKind::Ospf)
        } else if str_eq(name, "rip") {
            Ok(EngineKind::Rip)
        } else if str_eq(name, "ecmp") {
            Ok(EngineKind::Ecmp)
        } else if str_eq(name, "topk") {
            Ok(EngineKind::Topk)
        } else if str_eq(name, "spath") {
            Ok(EngineKind::Spath)
        } else if str_eq(name, "ddr") {
            Ok(EngineKind::Ddr)
        } else if str_eq(name, "dgr") {
            Ok(EngineKind::Dgr)
        } else if str_eq(name, "octopus") {
            Ok(EngineKind::Octopus)
        } else if str_eq(name, "irp") {
            Err(
                "protocol 'irp' is an abstract architecture and cannot be instantiated; use a concrete protocol (ospf, rip, ecmp, topk, spath, ddr, dgr, octopus)".to_owned(),
            )
        } else {
            Err(join_text("unsupported protocol: ", name))
        }
    }

    /// The name of the engine.
    pub open spec fn spec_as_str(self) -> Seq<char> {
        match self {
            EngineKind::Ospf => "ospf"@,
            EngineKind::Rip => "rip"@,
            EngineKind::Ecmp => "ecmp"@,
            EngineKind::Topk => "topk"@,
            EngineKind::Spath => "spath"@,
            EngineKind::Ddr => "ddr"@,
            EngineKind::Dgr => "dgr"@,
            EngineKind::Octopus => "octopus"@,
        }
    }

    /// The name of the engine.
    pub fn as_str(self) -> (r: &'static str)
        ensures
            r@ == self.spec_as_str(),
    {
        match self {
            EngineKind::Ospf => "ospf",
            EngineKind::Rip => "rip",
            EngineKind::Ecmp => "ecmp",
            EngineKind::Topk => "topk",
            EngineKind::Spath => "spath",
            EngineKind::Ddr => "ddr",
            EngineKind::Dgr => "dgr",
            EngineKind::Octopus => "octopus",
        }
    }

    /// Whether the engine weighs the queues towards its neighbours.
    pub fn is_queue_aware(self) -> (r: bool)
        ensures
            r == (self is Ddr || self is Dgr || self is Octopus),
    {
        match self {
            EngineKind::Ddr | EngineKind::Dgr | EngineKind::Octopus => true,
            _ => false,
        }
    }

    /// Whether the engine draws among its preferred next hops unless told
    /// otherwise.
    pub fn draws_by_default(self) -> (r: bool)
        ensures
            r == (self is Dgr || self is Octopus),
    {
        match self {
            EngineKind::Dgr | EngineKind::Octopus => true,
            _ => false,
        }
    }

    /// The pressure threshold of the engine where none is configured: the
    /// top queue level for Octopus, 2 for the others.
    pub fn default_pressure_threshold(self, queue_levels: usize) -> (r: usize)
        ensures
            r == if self is Octopus {
                if queue_levels >= 1 {
                    queue_levels - 1
                } else {
                    0
                }
            } else {
                2
            },
    {
        match self {
            EngineKind::Octopus => if queue_levels >= 1 {
                queue_levels - 1
            } else {
                0
            },
            _ => 2,
        }
    }
}

/// Every engine is found again under its own name.
pub proof fn lemma_engine_name_round_trip(kind: EngineKind)
    ensures
        spec_engine_kind(kind.spec_as_str()) == Some(kind),
{
    reveal_strlit("ospf");
    reveal_strlit("rip");
    reveal_strlit("ecmp");
    reveal_strlit("topk");
    reveal_strlit("spath");
    reveal_strlit("ddr");
    reveal_strlit("dgr");
    reveal_strlit("octopus");
    assert("ospf"@.len() == 4 && "rip"@.len() == 3 && "ecmp"@.len() == 4 && "topk"@.len() == 4);
    assert("spath"@.len() == 5 && "ddr"@.len() == 3 && "dgr"@.len() == 3 && "octopus"@.len() == 7);
    assert("rip"@[0] == 'r' && "ddr"@[0] == 'd' && "dgr"@[1] == 'g' && "ddr"@[1] == 'd');
    assert("ospf"@[0] == 'o' && "ecmp"@[0] == 'e' && "topk"@[0] == 't');
}

/// The truth value that `text` spells, surrounding whitespace and ASCII case
/// ignored: `1`, `true` and `yes` are true, `0`, `false` and `no` are false.
pub open spec fn spec_parse_flag(text: Seq<char>) -> Option<bool> {
    let k = keyword(text);
    if k == "1"@ || k == "true"@ || k == "yes"@ {
        Some(true)
    } else if k == "0"@ || k == "false"@ || k == "no"@ {
        Some(false)
    } else {
        None
    }
}

/// The truth value that `text` spells, if it spells one.
pub fn parse_flag(text: &str) -> (r: Option<bool>)
    ensures
        r == spec_parse_flag(text@),
{
    let k = keyword_of(text);
    if chars_are(&k, "1") || chars_are(&k, "true") || chars_are(&k, "yes") {
        Some(true)
    } else if chars_are(&k, "0") || chars_are(&k, "false") || chars_are(&k, "no") {
        Some(false)
    } else {
        None
    }
}

} // verus!

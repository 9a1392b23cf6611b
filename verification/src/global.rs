//! The standard globals of the runtime, by name.

use crate::path::same_text;
use vstd::prelude::*;
use vstd::string::*;

verus! {

/// A standard global of the runtime.
#[derive(Debug, Clone, Copy, Hash, PartialEq, Eq, Structural)]
pub enum LuneStandardGlobal {
    CFrame,
    Color3,
    Executable,
    GTable,
    NumberRange,
    Print,
    Require,
    Script,
    Task,
    Vector2,
    Vector3,
    Version,
    Warn,
}

/// The name of a global, as scripts write it.
pub open spec fn name_of(g: LuneStandardGlobal) -> Seq<char> {
    match g {
        LuneStandardGlobal::CFrame => "CFrame"@,
        LuneStandardGlobal::Color3 => "Color3"@,
        LuneStandardGlobal::Executable => "executable"@,
        LuneStandardGlobal::GTable => "_G"@,
        LuneStandardGlobal::NumberRange => "NumberRange"@,
        LuneStandardGlobal::Print => "print"@,
        LuneStandardGlobal::Require => "require"@,
        LuneStandardGlobal::Script => "script"@,
        LuneStandardGlobal::Task => "task"@,
        LuneStandardGlobal::Vector2 => "Vector2"@,
        LuneStandardGlobal::Vector3 => "Vector3"@,
        LuneStandardGlobal::Version => "_VERSION"@,
        LuneStandardGlobal::Warn => "warn"@,
    }
}

/// The character `c`, in lower case where it is an upper-case ASCII letter.
pub open spec fn lower(c: char) -> char {
    if 'A' <= c && c <= 'Z' {
        ((c as u32) + 32) as char
    } else {
        c
    }
}

/// The text `s` with its ASCII letters in lower case.
pub open spec fn lowered(s: Seq<char>) -> Seq<char> {
    Seq::new(s.len(), |i: int| lower(s[i]))
}

/// The character `c` is white space: it has the property White_Space
/// of the Unicode standard.
pub open spec fn is_white_space(c: char) -> bool {
    let n = c as u32;
    ||| 0x09 <= n <= 0x0D
    ||| n == 0x20
    ||| n == 0x85
    ||| n == 0xA0
    ||| n == 0x1680
    ||| 0x2000 <= n <= 0x200A
    ||| n == 0x2028
    ||| n == 0x2029
    ||| n == 0x202F
    ||| n == 0x205F
    ||| n == 0x3000
}

/// `s` without the white space at its start.
pub open spec fn trim_start(s: Seq<char>) -> Seq<char>
    decreases s.len(),
{
    if s.len() > 0 && is_white_space(s[0]) {
        trim_start(s.drop_first())
    } else {
        s
    }
}

/// `s` without the white space at its end.
pub open spec fn trim_end(s: Seq<char>) -> Seq<char>
    decreases s.len(),
{
    if s.len() > 0 && is_white_space(s.last()) {
        trim_end(s.drop_last())
    } else {
        s
    }
}

/// `s` without the white space at its ends.
pub open spec fn trimmed(s: Seq<char>) -> Seq<char> {
    trim_end(trim_start(s))
}

/// The global that the trimmed, lower-case text `low` names.
pub open spec fn global_named(low: Seq<char>) -> Option<LuneStandardGlobal> {
    if low == "cframe"@ {
        Some(LuneStandardGlobal::CFrame)
    } else if low == "color3"@ {
        Some(LuneStandardGlobal::Color3)
    } else if low == "executable"@ {
        Some(LuneStandardGlobal::Executable)
    } else if low == "_g"@ {
        Some(LuneStandardGlobal::GTable)
    } else if low == "numberrange"@ {
        Some(LuneStandardGlobal::NumberRange)
    } else if low == "print"@ {
        Some(LuneStandardGlobal::Print)
    } else if low == "require"@ {
        Some(LuneStandardGlobal::Require)
    } else if low == "script"@ {
        Some(LuneStandardGlobal::Script)
    } else if low == "task"@ {
        Some(LuneStandardGlobal::Task)
    } else if low == "vector2"@ {
        Some(LuneStandardGlobal::Vector2)
    } else if low == "vector3"@ {
        Some(LuneStandardGlobal::Vector3)
    } else if low == "_version"@ {
        Some(LuneStandardGlobal::Version)
    } else if low == "warn"@ {
        Some(LuneStandardGlobal::Warn)
    } else {
        None
    }
}

/// Calls `str::trim`: `s` without the characters at its start and at
/// its end that have the property White_Space.
#[verifier::external_body]
fn trim_text(s: &str) -> (r: String)
    ensures
        r@ == trimmed(s@),
{
    s.trim().to_string()
}

/// Calls `str::to_ascii_lowercase`: `s` with every upper-case ASCII
/// letter replaced by its lower-case letter, and nothing else changed.
#[verifier::external_body]
fn ascii_lowercase(s: &str) -> (r: String)
    ensures
        r@ == lowered(s@),
{
    s.to_ascii_lowercase()
}

impl LuneStandardGlobal {
    /// The name of the global, such as `_G` or `require`.
    pub fn name(&self) -> (r: &'static str)
        ensures
            r@ == name_of(*self),
    {
        match self {
            LuneStandardGlobal::CFrame => "CFrame",
            LuneStandardGlobal::Color3 => "Color3",
            LuneStandardGlobal::Executable => "executable",
            LuneStandardGlobal::GTable => "_G",
            LuneStandardGlobal::NumberRange => "NumberRange",
            LuneStandardGlobal::Print => "print",
            LuneStandardGlobal::Require => "require",
            LuneStandardGlobal::Script => "script",
            LuneStandardGlobal::Task => "task",
            LuneStandardGlobal::Vector2 => "Vector2",
            LuneStandardGlobal::Vector3 => "Vector3",
            LuneStandardGlobal::Version => "_VERSION",
            LuneStandardGlobal::Warn => "warn",
        }
    }

    /// The globals that every script gets, in their order. `executable`
    /// is not among them: it is put in later.
    pub fn all() -> (r: Vec<LuneStandardGlobal>)
        ensures
            r@ == seq![
                LuneStandardGlobal::CFrame,
                LuneStandardGlobal::Color3,
                LuneStandardGlobal::GTable,
                LuneStandardGlobal::NumberRange,
                LuneStandardGlobal::Print,
                LuneStandardGlobal::Require,
                LuneStandardGlobal::Script,
                LuneStandardGlobal::Task,
                LuneStandardGlobal::Vector2,
                LuneStandardGlobal::Vector3,
                LuneStandardGlobal::Version,
                LuneStandardGlobal::Warn,
            ],
    {
        let mut v: Vec<LuneStandardGlobal> = Vec::new();
        v.push(LuneStandardGlobal::CFrame);
        v.push(LuneStandardGlobal::Color3);
        v.push(LuneStandardGlobal::GTable);
        v.push(LuneStandardGlobal::NumberRange);
        v.push(LuneStandardGlobal::Print);
        v.push(LuneStandardGlobal::Require);
        v.push(LuneStandardGlobal::Script);
        v.push(LuneStandardGlobal::Task);
        v.push(LuneStandardGlobal::Vector2);
        v.push(LuneStandardGlobal::Vector3);
        v.push(LuneStandardGlobal::Version);
        v.push(LuneStandardGlobal::Warn);
        assert(v@ =~= seq![
            LuneStandardGlobal::CFrame,
            LuneStandardGlobal::Color3,
            LuneStandardGlobal::GTable,
            LuneStandardGlobal::NumberRange,
            LuneStandardGlobal::Print,
            LuneStandardGlobal::Require,
            LuneStandardGlobal::Script,
            LuneStandardGlobal::Task,
            LuneStandardGlobal::Vector2,
            LuneStandardGlobal::Vector3,
            LuneStandardGlobal::Version,
            LuneStandardGlobal::Warn,
        ]);
        v
    }

    /// The global that the text `low`, trimmed and in lower case, names.
    pub fn from_lowered(low: &str) -> (r: Option<LuneStandardGlobal>)
        ensures
            r == global_named(low@),
    {
        if same_text(low, "cframe") {
            Some(LuneStandardGlobal::CFrame)
        } else if same_text(low, "color3") {
            Some(LuneStandardGlobal::Color3)
        } else if same_text(low, "executable") {
            Some(LuneStandardGlobal::Executable)
        } else if same_text(low, "_g") {
            Some(LuneStandardGlobal::GTable)
        } else if same_text(low, "numberrange") {
            Some(LuneStandardGlobal::NumberRange)
        } else if same_text(low, "print") {
            Some(LuneStandardGlobal::Print)
        } else if same_text(low, "require") {
            Some(LuneStandardGlobal::Require)
        } else if same_text(low, "script") {
            Some(LuneStandardGlobal::Script)
        } else if same_text(low, "task") {
            Some(LuneStandardGlobal::Task)
        } else if same_text(low, "vector2") {
            Some(LuneStandardGlobal::Vector2)
        } else if same_text(low, "vector3") {
            Some(LuneStandardGlobal::Vector3)
        } else if same_text(low, "_version") {
            Some(LuneStandardGlobal::Version)
        } else if same_text(low, "warn") {
            Some(LuneStandardGlobal::Warn)
        } else {
            None
        }
    }

    /// The message for a text that names no global.
    pub fn unknown_message(low: &str) -> (r: String)
        ensures
            r@ == "Unknown standard global '"@ + low@ + "'\nValid globals are: "@
                + "CFrame, Color3, _G, NumberRange, print, require, script, task, Vector2, Vector3, _VERSION, warn"@,
    {
        let mut out = String::from_str("Unknown standard global '");
        out.append(low);
        out.append("'\nValid globals are: ");
        out.append(
            "CFrame, Color3, _G, NumberRange, print, require, script, task, Vector2, Vector3, _VERSION, warn",
        );
        out
    }

    /// The global that `s` names, whatever the case of its letters and
    /// the white space around it; else the message that says which
    /// names are valid.
    pub fn from_str(s: &str) -> (r: Result<LuneStandardGlobal, String>)
        ensures
            match r {
                Ok(g) => global_named(lowered(trimmed(s@))) == Some(g),
                Err(m) => global_named(lowered(trimmed(s@))) is None && m@
                    == "Unknown standard global '"@ + lowered(trimmed(s@))
                    + "'\nValid globals are: "@
                    + "CFrame, Color3, _G, NumberRange, print, require, script, task, Vector2, Vector3, _VERSION, warn"@,
            },
    {
        let kept = trim_text(s);
        let low = ascii_lowercase(kept.as_str());
        match LuneStandardGlobal::from_lowered(low.as_str()) {
            Some(g) => Ok(g),
            None => Err(LuneStandardGlobal::unknown_message(low.as_str())),
        }
    }
}

} // verus!

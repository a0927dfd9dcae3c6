//! Skill scripts: choosing the interpreter a script runs under, and bounding
//! what it printed.

use vstd::prelude::*;

use crate::text::{
    copy_chars, from_chars, push_str, split_words, str_eq, sub_chars, to_chars, trim, trim_chars, utf8,
    words,
};
use crate::utf8_text::{byte_slice_string, floor_boundary, floor_char_boundary, lemma_floor_boundary};
use vstd::utf8::decode_utf8;

verus! {

broadcast use {
    vstd::string::group_string_axioms,
    vstd::utf8::encode_utf8_valid_utf8,
    vstd::utf8::is_char_boundary_start_end_of_seq,
};

#[derive(Debug)]
pub struct ScriptResult {
    pub stdout: String,
    pub stderr: String,
    pub exit_code: i32,
    pub duration_ms: u64,
}

/// Where output is cut: the whole text when it fits, else the last
/// character boundary at or before `max_bytes`.
pub open spec fn output_cut(b: Seq<u8>, max_bytes: int) -> int {
    if b.len() <= max_bytes {
        b.len() as int
    } else {
        floor_boundary(b, max_bytes)
    }
}

/// At most `max_bytes` bytes of `s`, never splitting a character.
pub fn truncate_str(s: &str, max_bytes: usize) -> (r: String)
    ensures
        utf8(r@) == utf8(s@).subrange(0, output_cut(utf8(s@), max_bytes as int)),
        r@ == decode_utf8(utf8(s@).subrange(0, output_cut(utf8(s@), max_bytes as int))),
        utf8(r@).len() <= max_bytes,
{
    let ghost b = utf8(s@);
    let len = s.as_bytes().len();
    let end = if len <= max_bytes {
        len
    } else {
        floor_char_boundary(s, max_bytes)
    };
    proof {
        lemma_floor_boundary(b, max_bytes as int);
    }
    let r = byte_slice_string(s, 0, end);
    assert(r@ == decode_utf8(utf8(r@))) by {
        broadcast use vstd::utf8::encode_utf8_decode_utf8;

    }
    r
}

/// What follows the last '/' of `s` (all of `s` when it has none).
pub open spec fn after_last_slash(s: Seq<char>) -> Seq<char>
    decreases s.len(),
{
    if s.len() == 0 {
        s
    } else if s.last() == '/' {
        seq![]
    } else {
        after_last_slash(s.drop_last()).push(s.last())
    }
}

/// The interpreter a "#!" line names: the program after the last '/', or,
/// for `env`, the word that follows it.
pub open spec fn shebang_interpreter(line: Seq<char>) -> Seq<char> {
    let shebang = trim(line.skip(2));
    let tail = words(after_last_slash(shebang));
    let program = if tail.len() > 0 {
        tail[0]
    } else {
        shebang
    };
    if program == "env"@ && words(shebang).len() > 1 {
        words(shebang)[1]
    } else {
        program
    }
}

/// The interpreter implied by a script's extension, if any.
pub open spec fn extension_interpreter(ext: Seq<char>, python: Seq<char>) -> Option<Seq<char>> {
    if ext == "py"@ {
        Some(python)
    } else if ext == "sh"@ || ext == "bash"@ {
        Some("bash"@)
    } else if ext == "js"@ {
        Some("node"@)
    } else {
        None
    }
}

/// Why no interpreter could be chosen.
#[derive(Debug)]
pub enum InterpreterError {
    /// The interpreter is not on the allow list.
    NotAllowed(String),
    /// The extension implies no interpreter.
    UnknownExtension(String),
}

pub open spec fn allows(allowed: Seq<Seq<char>>, name: Seq<char>) -> bool {
    allowed.contains(name)
}

/// The interpreter chosen for a script with the given first line and
/// extension: from the "#!" line when there is one, else from the
/// extension; in both cases it must be allowed.
pub open spec fn interpreter_choice(
    first_line: Option<Seq<char>>,
    ext: Seq<char>,
    allowed: Seq<Seq<char>>,
    python: Seq<char>,
) -> Result<Seq<char>, (bool, Seq<char>)> {
    match first_line {
        Some(line) if line.len() >= 2 && line[0] == '#' && line[1] == '!' => {
            let interp = shebang_interpreter(line);
            if allows(allowed, interp) {
                Ok(interp)
            } else {
                Err((true, interp))
            }
        },
        _ => match extension_interpreter(ext, python) {
            Some(interp) => if allows(allowed, interp) {
                Ok(interp)
            } else {
                Err((true, interp))
            },
            None => Err((false, ext)),
        },
    }
}

fn after_last_slash_chars(v: &[char]) -> (r: Vec<char>)
    ensures
        r@ == after_last_slash(v@),
{
    let mut j: usize = v.len();
    assert(v@.take(j as int) =~= v@);
    assert(after_last_slash(v@) + v@.subrange(j as int, v@.len() as int) =~= after_last_slash(v@));
    while j > 0 && v[j - 1] != '/'
        invariant
            j <= v@.len(),
            after_last_slash(v@) == after_last_slash(v@.take(j as int)) + v@.subrange(
                j as int,
                v@.len() as int,
            ),
        decreases j,
    {
        assert(v@.take(j as int).drop_last() =~= v@.take(j - 1));
        assert(v@.subrange(j - 1, v@.len() as int) =~= seq![v@[j - 1]] + v@.subrange(
            j as int,
            v@.len() as int,
        ));
        assert(after_last_slash(v@.take(j as int)) == after_last_slash(v@.take(j - 1)).push(v@[j - 1]));
        assert(after_last_slash(v@.take(j - 1)).push(v@[j - 1]) + v@.subrange(j as int, v@.len() as int)
            =~= after_last_slash(v@.take(j - 1)) + v@.subrange(j - 1, v@.len() as int));
        j = j - 1;
    }
    assert(after_last_slash(v@.take(j as int)) =~= Seq::<char>::empty());
    sub_chars(v, j, v.len())
}

fn allowed_contains(allowed: &[String], name: &[char]) -> (r: bool)
    ensures
        r == allows(allowed@.map_values(|a: String| a@), name@),
{
    let ghost al = allowed@.map_values(|a: String| a@);
    let wanted = from_chars(name);
    let mut i: usize = 0;
    while i < allowed.len()
        invariant
            0 <= i <= allowed@.len(),
            al == allowed@.map_values(|a: String| a@),
            wanted@ == name@,
            forall|j: int| 0 <= j < i ==> al[j] != name@,
        decreases allowed@.len() - i,
    {
        if str_eq(allowed[i].as_str(), wanted.as_str()) {
            assert(al[i as int] == name@);
            return true;
        }
        i = i + 1;
    }
    assert(!al.contains(name@));
    false
}

/// Choose the interpreter for a script from its first line (when it could be
/// read) or its extension, checked against the allow list. `python` is the
/// platform's default Python interpreter.
pub fn select_interpreter(
    first_line: Option<&str>,
    extension: &str,
    allowed: &[String],
    python: &str,
) -> (r: Result<String, InterpreterError>)
    ensures
        match interpreter_choice(
            match first_line {
                Some(l) => Some(l@),
                None => None,
            },
            extension@,
            allowed@.map_values(|a: String| a@),
            python@,
        ) {
            Ok(i) => r matches Ok(s) && s@ == i,
            Err((true, i)) => r matches Err(InterpreterError::NotAllowed(s)) && s@ == i,
            Err((false, e)) => r matches Err(InterpreterError::UnknownExtension(s)) && s@ == e,
        },
{
    if let Some(line) = first_line {
        let chars = to_chars(line);
        if chars.len() >= 2 && chars[0] == '#' && chars[1] == '!' {
            let rest = sub_chars(chars.as_slice(), 2, chars.len());
            assert(rest@ =~= line@.skip(2));
            let shebang = trim_chars(rest.as_slice());
            let tail = after_last_slash_chars(shebang.as_slice());
            let tail_words = split_words(tail.as_slice());
            proof {
                assert(tail_words@.map_values(|l: Vec<char>| l@).len() == tail_words@.len());
            }
            let program = if tail_words.len() > 0 {
                assert(tail_words@.map_values(|l: Vec<char>| l@)[0] == tail_words@[0]@);
                copy_chars(tail_words[0].as_slice())
            } else {
                copy_chars(shebang.as_slice())
            };
            let program_text = from_chars(program.as_slice());
            let interp = if str_eq(program_text.as_str(), "env") {
                let all_words = split_words(shebang.as_slice());
                proof {
                    assert(all_words@.map_values(|l: Vec<char>| l@).len() == all_words@.len());
                }
                if all_words.len() > 1 {
                    assert(all_words@.map_values(|l: Vec<char>| l@)[1] == all_words@[1]@);
                    copy_chars(all_words[1].as_slice())
                } else {
                    program
                }
            } else {
                program
            };
            assert(interp@ == shebang_interpreter(line@));
            if allowed_contains(allowed, interp.as_slice()) {
                return Ok(from_chars(interp.as_slice()));
            } else {
                return Err(InterpreterError::NotAllowed(from_chars(interp.as_slice())));
            }
        }
    }
    let inferred: Option<&str> = if str_eq(extension, "py") {
        Some(python)
    } else if str_eq(extension, "sh") || str_eq(extension, "bash") {
        Some("bash")
    } else if str_eq(extension, "js") {
        Some("node")
    } else {
        None
    };
    match inferred {
        Some(name) => {
            let chars = to_chars(name);
            if allowed_contains(allowed, chars.as_slice()) {
                Ok(name.to_owned())
            } else {
                Err(InterpreterError::NotAllowed(name.to_owned()))
            }
        },
        None => Err(InterpreterError::UnknownExtension(extension.to_owned())),
    }
}

// ── Sandbox profile ────────────────────────────────────────────

/// The write grant for one extra allowed path.
pub open spec fn extra_path_line(p: Seq<char>) -> Seq<char> {
    "(allow file-write* (subpath \""@ + p + "\"))\n"@
}

pub open spec fn extra_path_lines(ps: Seq<Seq<char>>) -> Seq<char>
    decreases ps.len(),
{
    if ps.len() == 0 {
        seq![]
    } else {
        extra_path_lines(ps.drop_last()) + extra_path_line(ps.last())
    }
}

/// The fixed opening of the profile: deny by default; allow process
/// execution, reads everywhere, writes to /dev/null, /dev/zero and /tmp.
pub open spec fn profile_head() -> Seq<char> {
    "(version 1)\n"@ + "(deny default)\n\n"@ + "; Process execution for interpreters\n"@
        + "(allow process-exec)\n"@ + "(allow process-fork)\n\n"@
        + "; Global read access — writes are the confinement boundary\n"@
        + "(allow file-read*)\n\n"@ + "; /dev/null, /dev/zero — scripts redirect stderr here\n"@
        + "(allow file-write* (literal \"/dev/null\") (literal \"/dev/zero\"))\n\n"@
        + "; Scratch space — /tmp and /private/tmp\n"@ + "(allow file-write* (subpath \"/tmp\"))\n"@
        + "(allow file-write* (subpath \"/private/tmp\"))\n\n"@
}

/// The grants runtimes need: sysctl reads, mach lookups, signals to
/// itself and shared memory.
pub open spec fn profile_ipc() -> Seq<char> {
    "; IPC and signals for language runtimes\n"@ + "(allow sysctl-read)\n"@ + "(allow mach-lookup)\n"@
        + "(allow signal (target self))\n"@ + "(allow ipc-posix-shm-read-data)\n"@
        + "(allow ipc-posix-shm-write-data)\n\n"@
}

/// The macOS sandbox profile for scripts: deny by default, with reads
/// allowed everywhere and writes only to the scratch space, the workspace
/// (when there is one) and the extra allowed paths; network access only
/// when allowed. Paths are given as they are to appear (canonical).
pub open spec fn sandbox_profile_text(workspace: Option<Seq<char>>, extra: Seq<Seq<char>>, network: bool) -> Seq<char> {
    profile_head() + match workspace {
        Some(ws) => "; Workspace directory — writable\n"@ + "(allow file-write* (subpath \""@ + ws
            + "\"))\n\n"@,
        None => seq![],
    } + extra_path_lines(extra) + (if extra.len() > 0 {
        "\n"@
    } else {
        seq![]
    }) + profile_ipc() + if network {
        "; Network access allowed by configuration\n"@ + "(allow network*)\n"@
    } else {
        "; Network denied (sandbox_env + !network_allowed)\n"@
    }
}

/// The text of the macOS sandbox profile for scripts.
pub fn sandbox_profile(workspace: Option<&str>, extra_paths: &[String], network_allowed: bool) -> (r:
    String)
    ensures
        r@ == sandbox_profile_text(
            match workspace {
                Some(w) => Some(w@),
                None => None,
            },
            extra_paths@.map_values(|p: String| p@),
            network_allowed,
        ),
{
    let mut sb: Vec<char> = Vec::new();
    push_str(&mut sb, "(version 1)\n");
    push_str(&mut sb, "(deny default)\n\n");
    push_str(&mut sb, "; Process execution for interpreters\n");
    push_str(&mut sb, "(allow process-exec)\n");
    push_str(&mut sb, "(allow process-fork)\n\n");
    push_str(&mut sb, "; Global read access — writes are the confinement boundary\n");
    push_str(&mut sb, "(allow file-read*)\n\n");
    push_str(&mut sb, "; /dev/null, /dev/zero — scripts redirect stderr here\n");
    push_str(&mut sb, "(allow file-write* (literal \"/dev/null\") (literal \"/dev/zero\"))\n\n");
    push_str(&mut sb, "; Scratch space — /tmp and /private/tmp\n");
    push_str(&mut sb, "(allow file-write* (subpath \"/tmp\"))\n");
    push_str(&mut sb, "(allow file-write* (subpath \"/private/tmp\"))\n\n");
    assert(sb@ =~= profile_head());
    let ghost head = sb@;
    match workspace {
        Some(ws) => {
            push_str(&mut sb, "; Workspace directory — writable\n");
            push_str(&mut sb, "(allow file-write* (subpath \"");
            push_str(&mut sb, ws);
            push_str(&mut sb, "\"))\n\n");
        },
        None => {},
    }
    let ghost ws_part = match workspace {
        Some(w) => "; Workspace directory — writable\n"@ + "(allow file-write* (subpath \""@ + w@
            + "\"))\n\n"@,
        None => Seq::<char>::empty(),
    };
    assert(sb@ =~= head + ws_part);
    let ghost ps = extra_paths@.map_values(|p: String| p@);
    let ghost base = sb@;
    let mut i: usize = 0;
    while i < extra_paths.len()
        invariant
            0 <= i <= extra_paths@.len(),
            ps == extra_paths@.map_values(|p: String| p@),
            sb@ == base + extra_path_lines(ps.take(i as int)),
        decreases extra_paths@.len() - i,
    {
        push_str(&mut sb, "(allow file-write* (subpath \"");
        push_str(&mut sb, extra_paths[i].as_str());
        push_str(&mut sb, "\"))\n");
        assert(ps.take(i + 1).drop_last() =~= ps.take(i as int));
        assert(ps[i as int] == extra_paths@[i as int]@);
        assert(sb@ =~= base + extra_path_lines(ps.take(i + 1)));
        i = i + 1;
    }
    assert(ps.take(extra_paths@.len() as int) =~= ps);
    if extra_paths.len() > 0 {
        push_str(&mut sb, "\n");
    }
    let ghost before_ipc = sb@;
    push_str(&mut sb, "; IPC and signals for language runtimes\n");
    push_str(&mut sb, "(allow sysctl-read)\n");
    push_str(&mut sb, "(allow mach-lookup)\n");
    push_str(&mut sb, "(allow signal (target self))\n");
    push_str(&mut sb, "(allow ipc-posix-shm-read-data)\n");
    push_str(&mut sb, "(allow ipc-posix-shm-write-data)\n\n");
    assert(sb@ =~= before_ipc + profile_ipc());
    let ghost before_net = sb@;
    if network_allowed {
        push_str(&mut sb, "; Network access allowed by configuration\n");
        push_str(&mut sb, "(allow network*)\n");
    } else {
        push_str(&mut sb, "; Network denied (sandbox_env + !network_allowed)\n");
    }
    assert(sb@ =~= sandbox_profile_text(
        match workspace {
            Some(w) => Some(w@),
            None => None,
        },
        ps,
        network_allowed,
    ));
    from_chars(sb.as_slice())
}

} // verus!

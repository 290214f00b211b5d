use vstd::prelude::*;

verus! {

/// What one invocation does, decided from the parsed command line.
#[derive(PartialEq, Eq, Structural, Clone, Copy, Debug)]
pub enum Mode {
    /// Delete leftover sandbox directories.
    Clean,
    /// No command was given: usage error.
    Usage,
    /// Run the snapshot, diff and apply pipeline.
    Run,
}

/// Pick the operating mode: the clean flag wins, an empty command without
/// it is a usage error, anything else runs the pipeline.
pub fn choose_mode(clean: bool, command_len: usize) -> (r: Mode)
    ensures
        r == (if clean {
            Mode::Clean
        } else if command_len == 0 {
            Mode::Usage
        } else {
            Mode::Run
        }),
{
    if clean {
        Mode::Clean
    } else if command_len == 0 {
        Mode::Usage
    } else {
        Mode::Run
    }
}

/// Gate after the sandboxed command has run: `None` lets the pipeline go
/// on to the diff; `Some(code)` aborts the invocation with the child's own
/// exit code, `-1` when the child reported none.
pub fn child_gate(exited_ok: bool, exit_code: Option<i32>) -> (r: Option<i32>)
    ensures
        exited_ok ==> r is None,
        !exited_ok ==> r == Some(match exit_code {
            Some(c) => c,
            None => -1i32,
        }),
{
    if exited_ok {
        None
    } else {
        match exit_code {
            Some(c) => Some(c),
            None => Some(-1),
        }
    }
}

/// An ASCII whitespace byte: space, tab, line feed or carriage return.
pub open spec fn is_ascii_space(b: u8) -> bool {
    b == 32 || b == 9 || b == 10 || b == 13
}

/// Whether a line of input confirms the apply step: ignoring surrounding
/// ASCII whitespace it is exactly `y`, case-insensitively.
pub open spec fn confirms(s: Seq<u8>) -> bool {
    exists|i: int|
        0 <= i < s.len() && (s[i] == 121u8 || s[i] == 89u8) && (forall|j: int|
            0 <= j < s.len() && j != i ==> is_ascii_space(s[j]))
}

/// Decide whether a line read from the operator confirms the apply step.
pub fn is_confirmation(line: &Vec<u8>) -> (r: bool)
    ensures
        r == confirms(line@),
{
    let n = line.len();
    let mut i: usize = 0;
    let mut seen: Option<usize> = None;
    let mut multiple = false;
    while i < n
        invariant
            n == line@.len(),
            i <= n,
            match seen {
                None => !multiple && (forall|j: int| 0 <= j < i ==> is_ascii_space(line@[j])),
                Some(kk) => kk < i && !is_ascii_space(line@[kk as int]) && (forall|j: int|
                    0 <= j < kk ==> is_ascii_space(line@[j])) && (multiple <==> exists|j: int|
                    0 <= j < i && j != kk && !is_ascii_space(line@[j])),
            },
        decreases n - i,
    {
        let b = line[i];
        if !(b == 32 || b == 9 || b == 10 || b == 13) {
            match seen {
                None => {
                    seen = Some(i);
                }
                Some(_) => {
                    multiple = true;
                }
            }
        }
        i += 1;
    }
    match seen {
        None => {
            proof {
                if confirms(line@) {
                    let w = choose|w: int|
                        0 <= w < line@.len() && (line@[w] == 121u8 || line@[w] == 89u8) && (
                        forall|j: int| 0 <= j < line@.len() && j != w ==> is_ascii_space(line@[j]));
                    assert(is_ascii_space(line@[w]));
                }
            }
            false
        }
        Some(kk) => {
            if multiple {
                proof {
                    if confirms(line@) {
                        let w = choose|w: int|
                            0 <= w < line@.len() && (line@[w] == 121u8 || line@[w] == 89u8) && (
                            forall|j: int| 0 <= j < line@.len() && j != w ==> is_ascii_space(line@[j]));
                        let j = choose|j: int|
                            0 <= j < n && j != kk && !is_ascii_space(line@[j]);
                        assert(w == kk);
                        assert(is_ascii_space(line@[j]));
                    }
                }
                false
            } else {
                let b = line[kk];
                let r = b == 121u8 || b == 89u8;
                proof {
                    if r {
                        assert(forall|j: int|
                            0 <= j < line@.len() && j != kk ==> is_ascii_space(line@[j]));
                        assert(confirms(line@));
                    } else {
                        if confirms(line@) {
                            let w = choose|w: int|
                                0 <= w < line@.len() && (line@[w] == 121u8 || line@[w] == 89u8) && (
                                forall|j: int| 0 <= j < line@.len() && j != w ==> is_ascii_space(line@[j]));
                            assert(w == kk);
                        }
                    }
                }
                r
            }
        }
    }
}

} // verus!

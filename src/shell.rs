//! Shell integration: which shells are known, and the line that an rc
//! file needs so that a shell loads the integration.
use vstd::prelude::*;
use vstd::string::{StrSliceExecFns, StringExecFns};
use crate::text::chars_of;

verus! {

/// A shell that integration scripts exist for.
#[derive(Debug, Clone, Copy, PartialEq, Eq, Structural)]
pub enum Shell {
    Fish,
    Bash,
    Zsh,
}

pub open spec fn shell_name(s: Shell) -> Seq<char> {
    match s {
        Shell::Fish => seq!['f', 'i', 's', 'h'],
        Shell::Bash => seq!['b', 'a', 's', 'h'],
        Shell::Zsh => seq!['z', 's', 'h'],
    }
}

/// The line that loads the integration into `shell`:
/// `eval "$(zipzap source NAME)" # added by 'zipzap install NAME'`.
pub open spec fn eval_line_of(shell: Shell) -> Seq<char> {
    "eval \"$(zipzap source "@ + shell_name(shell) + ")\" # added by 'zipzap install "@
        + shell_name(shell) + "'"@
}

/// `line` stands in `text` from index `i` as a whole line: it starts the
/// text or follows a `\n`, and it ends the text or is followed by `\n` or
/// `\r\n`.
pub open spec fn line_at(text: Seq<char>, line: Seq<char>, i: int) -> bool {
    let e = i + line.len();
    &&& 0 <= i
    &&& e <= text.len()
    &&& text.subrange(i, e) == line
    &&& (i == 0 || text[i - 1] == '\n')
    &&& (e == text.len() || text[e] == '\n' || (e + 1 < text.len() && text[e] == '\r' && text[e
        + 1] == '\n'))
}

/// `text` holds `line` as one of its lines; a `line` that itself holds a
/// `\n` is never one.
pub open spec fn has_line(text: Seq<char>, line: Seq<char>) -> bool {
    &&& forall|k: int| 0 <= k < line.len() ==> line[k] != '\n'
    &&& exists|i: int| line_at(text, line, i)
}

/// `text` with `line` added as its last line, after a `\n` when `text` does
/// not already end with one.
pub open spec fn appended(text: Seq<char>, line: Seq<char>) -> Seq<char> {
    let base = if text.len() > 0 && text.last() == '\n' {
        text
    } else {
        text + seq!['\n']
    };
    base + line + seq!['\n']
}

impl Shell {
    /// The shell of a process name, if it is one of the known shells.
    pub fn from_name(name: &str) -> (r: Option<Shell>)
        ensures
            r matches Some(s) ==> shell_name(s) == name@,
            r is None ==> forall|s: Shell| shell_name(s) != name@,
    {
        let n = chars_of(name);
        let shells = [Shell::Fish, Shell::Bash, Shell::Zsh];
        let mut k: usize = 0;
        while k < 3
            invariant
                k <= 3,
                n@ == name@,
                shells@ == seq![Shell::Fish, Shell::Bash, Shell::Zsh],
                forall|j: int| 0 <= j < k ==> shell_name(#[trigger] shells@[j]) != name@,
            decreases 3 - k,
        {
            let s = shells[k];
            let want = chars_of(s.name());
            let mut same = want.len() == n.len();
            let mut i: usize = 0;
            while same && i < n.len()
                invariant
                    want@ == shell_name(s),
                    n@ == name@,
                    i <= n.len(),
                    same ==> want.len() == n.len(),
                    same ==> forall|m: int| 0 <= m < i ==> want@[m] == n@[m],
                    !same ==> want@ != n@,
                decreases n.len() - i,
            {
                if want[i] != n[i] {
                    same = false;
                }
                i = i + 1;
            }
            if same {
                assert(want@ =~= n@);
                return Some(s);
            }
            k = k + 1;
        }
        assert forall|s: Shell| shell_name(s) != name@ by {
            match s {
                Shell::Fish => assert(shell_name(shells@[0]) != name@),
                Shell::Bash => assert(shell_name(shells@[1]) != name@),
                Shell::Zsh => assert(shell_name(shells@[2]) != name@),
            }
        }
        None
    }

    /// The shell's name, as its process is called.
    pub fn name(&self) -> (r: &'static str)
        ensures
            r@ == shell_name(*self),
    {
        proof {
            reveal_strlit("fish");
            reveal_strlit("bash");
            reveal_strlit("zsh");
        }
        match self {
            Shell::Fish => "fish",
            Shell::Bash => "bash",
            Shell::Zsh => "zsh",
        }
    }

    /// The rc-file line that loads the integration into this shell.
    pub fn eval_line(&self) -> (r: String)
        ensures
            r@ == eval_line_of(*self),
    {
        let mut r = String::from_str("eval \"$(zipzap source ");
        r.append(self.name());
        r.append(")\" # added by 'zipzap install ");
        r.append(self.name());
        r.append("'");
        r
    }
}

/// Whether `text` holds `line` as one of its lines.
pub fn contains_line(text: &str, line: &str) -> (r: bool)
    ensures
        r == has_line(text@, line@),
{
    let t = chars_of(text);
    let l = chars_of(line);
    let mut q: usize = 0;
    while q < l.len()
        invariant
            l@ == line@,
            q <= l.len(),
            forall|k: int| 0 <= k < q ==> l@[k] != '\n',
        decreases l.len() - q,
    {
        if l[q] == '\n' {
            assert(line@[q as int] == '\n');
            return false;
        }
        q = q + 1;
    }
    if l.len() > t.len() {
        return false;
    }
    let last = t.len() - l.len();
    let mut i: usize = 0;
    while i <= last
        invariant
            t@ == text@,
            l@ == line@,
            forall|k: int| 0 <= k < l@.len() ==> l@[k] != '\n',
            last == t.len() - l.len(),
            i <= last + 1,
            forall|j: int| 0 <= j < i ==> !line_at(t@, l@, j),
        decreases last + 1 - i,
    {
        let starts = i == 0 || t[i - 1] == '\n';
        let e = i + l.len();
        let ends = e == t.len() || t[e] == '\n' || (e + 1 < t.len() && t[e] == '\r' && t[e
            + 1] == '\n');
        if starts && ends {
            let mut same = true;
            let mut k: usize = 0;
            while same && k < l.len()
                invariant
                    e == i + l.len(),
                    e <= t.len(),
                    k <= l.len(),
                    same ==> forall|m: int| 0 <= m < k ==> t@[i + m] == l@[m],
                    !same ==> t@.subrange(i as int, e as int) != l@,
                decreases l.len() - k,
            {
                if t[i + k] != l[k] {
                    assert(t@.subrange(i as int, e as int)[k as int] != l@[k as int]);
                    same = false;
                }
                k = k + 1;
            }
            if same {
                assert(t@.subrange(i as int, e as int) =~= l@);
                assert(line_at(t@, l@, i as int));
                return true;
            }
        }
        if i == last {
            assert forall|j: int| !line_at(t@, l@, j) by {
                if 0 <= j && j > last {
                    assert(j + l@.len() > t@.len());
                }
            }
            return false;
        }
        i = i + 1;
    }
    assert forall|j: int| !line_at(t@, l@, j) by {
        if 0 <= j && j > last {
            assert(j + l@.len() > t@.len());
        }
    }
    false
}

/// `text` with `line` added as its last line.
pub fn append_line(text: &str, line: &str) -> (r: String)
    ensures
        r@ == appended(text@, line@),
{
    let n = text.unicode_len();
    let mut r = String::from_str(text);
    proof {
        reveal_strlit("\n");
    }
    if !(n > 0 && text.get_char(n - 1) == '\n') {
        r.append("\n");
    }
    r.append(line);
    r.append("\n");
    r
}

} // verus!

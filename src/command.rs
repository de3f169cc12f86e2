use vstd::prelude::*;
use vstd::string::StringSliceAdditionalSpecFns;

use crate::file_table::byte_strings;

verus! {

/// ASCII whitespace: the bytes that separate the words of a command.
pub open spec fn is_space(b: u8) -> bool {
    b == 32 || (9 <= b && b <= 13)
}

/// The words of `s`: its maximal runs of bytes that are not whitespace, in order.
pub open spec fn words(s: Seq<u8>) -> Seq<Seq<u8>>
    decreases s.len(),
{
    if s.len() == 0 {
        Seq::empty()
    } else if is_space(s.last()) {
        words(s.drop_last())
    } else if s.len() == 1 || is_space(s[s.len() - 2]) {
        words(s.drop_last()).push(seq![s.last()])
    } else {
        let w = words(s.drop_last());
        w.update(w.len() - 1, w.last().push(s.last()))
    }
}

pub open spec fn help_word() -> Seq<u8> {
    seq![104u8, 101, 108, 112]
}

pub open spec fn ls_word() -> Seq<u8> {
    seq![108u8, 115]
}

pub open spec fn exit_word() -> Seq<u8> {
    seq![101u8, 120, 105, 116]
}

pub open spec fn touch_word() -> Seq<u8> {
    seq![116u8, 111, 117, 99, 104]
}

pub open spec fn wf_word() -> Seq<u8> {
    seq![119u8, 102]
}

pub open spec fn rm_word() -> Seq<u8> {
    seq![114u8, 109]
}

pub open spec fn cat_word() -> Seq<u8> {
    seq![99u8, 97, 116]
}

/// Commands that take no argument.
pub open spec fn is_bare(w: Seq<u8>) -> bool {
    w == help_word() || w == ls_word()
}

/// Commands that take a file name.
pub open spec fn takes_name(w: Seq<u8>) -> bool {
    w == touch_word() || w == wf_word() || w == rm_word() || w == cat_word()
}

/// A shell command line, parsed.
pub enum Command {
    /// Nothing but whitespace.
    Empty,
    /// `exit`
    Exit,
    /// `help`
    Help,
    /// `ls`
    List,
    /// `touch <file>`
    Touch(Vec<u8>),
    /// `wf <file>`: the data follows on the next line.
    WriteFile(Vec<u8>),
    /// `rm <file>`
    Remove(Vec<u8>),
    /// `cat <file>`
    Cat(Vec<u8>),
    /// A known command with the wrong number of arguments; holds the command word.
    WrongArity(Vec<u8>),
    /// A first word that is no command.
    Unknown,
}

/// `c` is what the words `ws` of a line mean.
pub open spec fn parses_as(ws: Seq<Seq<u8>>, c: Command) -> bool {
    match c {
        Command::Empty => ws.len() == 0,
        Command::Exit => ws == seq![exit_word()],
        Command::Help => ws == seq![help_word()],
        Command::List => ws == seq![ls_word()],
        Command::Touch(n) => ws.len() == 2 && ws[0] == touch_word() && n@ == ws[1],
        Command::WriteFile(n) => ws.len() == 2 && ws[0] == wf_word() && n@ == ws[1],
        Command::Remove(n) => ws.len() == 2 && ws[0] == rm_word() && n@ == ws[1],
        Command::Cat(n) => ws.len() == 2 && ws[0] == cat_word() && n@ == ws[1],
        Command::WrongArity(w) => ws.len() > 0 && w@ == ws[0] && ((is_bare(ws[0]) && ws.len() != 1)
            || (takes_name(ws[0]) && ws.len() != 2)),
        Command::Unknown => ws.len() > 0 && ws != seq![exit_word()] && !is_bare(ws[0]) && !takes_name(
            ws[0],
        ),
    }
}

proof fn lemma_words_nonempty(s: Seq<u8>)
    requires
        s.len() > 0,
        !is_space(s.last()),
    ensures
        words(s).len() > 0,
    decreases s.len(),
{
    if s.len() > 1 && !is_space(s[s.len() - 2]) {
        assert(s.drop_last().last() == s[s.len() - 2]);
        lemma_words_nonempty(s.drop_last());
    }
}

fn is_space_byte(b: u8) -> (r: bool)
    ensures
        r == is_space(b),
{
    b == 32 || (9 <= b && b <= 13)
}

/// Splits `line` into its words.
pub fn split_words(line: &[u8]) -> (r: Vec<Vec<u8>>)
    ensures
        byte_strings(r@) == words(line@),
{
    let mut out: Vec<Vec<u8>> = Vec::new();
    let mut i: usize = 0;
    while i < line.len()
        invariant
            i <= line@.len(),
            byte_strings(out@) == words(line@.take(i as int)),
        decreases line.len() - i,
    {
        let b = line[i];
        let ghost pre = line@.take(i as int);
        let ghost now = line@.take(i + 1);
        assert(now.drop_last() =~= pre);
        assert(now.last() == b);
        if is_space_byte(b) {
        } else if i == 0 || is_space_byte(line[i - 1]) {
            let mut w: Vec<u8> = Vec::new();
            w.push(b);
            let ghost before = out@;
            out.push(w);
            proof {
                if i > 0 {
                    assert(now[now.len() - 2] == line@[i - 1]);
                }
                assert(w@ =~= seq![b]);
                assert(byte_strings(out@) =~= byte_strings(before).push(seq![b]));
            }
        } else {
            proof {
                assert(now[now.len() - 2] == line@[i - 1]);
                assert(pre.last() == line@[i - 1]);
                lemma_words_nonempty(pre);
            }
            let ghost before = out@;
            let mut w = out.pop().unwrap();
            w.push(b);
            out.push(w);
            proof {
                assert(byte_strings(out@) =~= byte_strings(before).update(
                    before.len() - 1,
                    byte_strings(before).last().push(b),
                ));
            }
        }
        i += 1;
    }
    assert(line@.take(i as int) =~= line@);
    out
}

/// Whether `w` is the keyword `k`.
fn is_word(w: &Vec<u8>, k: &[u8]) -> (r: bool)
    ensures
        r == (w@ == k@),
{
    if w.len() != k.len() {
        return false;
    }
    let mut j: usize = 0;
    while j < k.len()
        invariant
            w@.len() == k@.len(),
            j <= k@.len(),
            forall|m: int| 0 <= m < j ==> w@[m] == k@[m],
        decreases k.len() - j,
    {
        if w[j] != k[j] {
            return false;
        }
        j += 1;
    }
    assert(w@ =~= k@);
    true
}

/// Parses a command line of the shell.
pub fn parse_command(line: &str) -> (r: Command)
    ensures
        parses_as(words(line.spec_bytes()), r),
{
    let mut ws = split_words(line.as_bytes());
    let ghost all = byte_strings(ws@);
    if ws.len() == 0 {
        return Command::Empty;
    }
    let n = ws.len();
    assert(all[0] == ws@[0]@);
    let help: [u8; 4] = [104, 101, 108, 112];
    let ls: [u8; 2] = [108, 115];
    let exit: [u8; 4] = [101, 120, 105, 116];
    let touch: [u8; 5] = [116, 111, 117, 99, 104];
    let wf: [u8; 2] = [119, 102];
    let rm: [u8; 2] = [114, 109];
    let cat: [u8; 3] = [99, 97, 116];
    assert(help@ =~= help_word());
    assert(ls@ =~= ls_word());
    assert(exit@ =~= exit_word());
    assert(touch@ =~= touch_word());
    assert(wf@ =~= wf_word());
    assert(rm@ =~= rm_word());
    assert(cat@ =~= cat_word());
    let is_help = is_word(&ws[0], help.as_slice());
    let is_ls = is_word(&ws[0], ls.as_slice());
    let is_exit = is_word(&ws[0], exit.as_slice());
    let is_touch = is_word(&ws[0], touch.as_slice());
    let is_wf = is_word(&ws[0], wf.as_slice());
    let is_rm = is_word(&ws[0], rm.as_slice());
    let is_cat = is_word(&ws[0], cat.as_slice());
    if is_exit && n == 1 {
        assert(all =~= seq![exit_word()]);
        return Command::Exit;
    }
    if is_help || is_ls {
        if n != 1 {
            let w = ws.swap_remove(0);
            return Command::WrongArity(w);
        }
        if is_help {
            assert(all =~= seq![help_word()]);
            return Command::Help;
        }
        assert(all =~= seq![ls_word()]);
        return Command::List;
    }
    if is_touch || is_wf || is_rm || is_cat {
        if n != 2 {
            let w = ws.swap_remove(0);
            return Command::WrongArity(w);
        }
        assert(all[1] == ws@[1]@);
        let name = ws.pop().unwrap();
        if is_touch {
            return Command::Touch(name);
        } else if is_wf {
            return Command::WriteFile(name);
        } else if is_rm {
            return Command::Remove(name);
        }
        return Command::Cat(name);
    }
    if is_exit {
        assert(all.len() != 1);
    }
    Command::Unknown
}

} // verus!

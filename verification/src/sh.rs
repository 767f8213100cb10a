use vstd::prelude::*;
use crate::lobject::spec_decimal;
use crate::lobject::integer_to_string;

verus! {

// ─── Quoting ─────────────────────────────────────────────────────────────────

/// What one byte of an argument becomes inside single quotes: a quote
/// closes the quoting, is written escaped, and opens it again.
pub open spec fn quote_piece(b: u8) -> Seq<u8> {
    if b == 39u8 {
        seq![39u8, 92u8, 39u8, 39u8]
    } else {
        seq![b]
    }
}

/// The quoted form of `arg` without its outer quotes.
pub open spec fn quote_body(arg: Seq<u8>) -> Seq<u8>
    decreases arg.len(),
{
    if arg.len() == 0 {
        Seq::empty()
    } else {
        quote_body(arg.drop_last()) + quote_piece(arg.last())
    }
}

/// `arg` as one shell word in single quotes.
pub open spec fn spec_shell_quote(arg: Seq<u8>) -> Seq<u8> {
    seq![39u8] + quote_body(arg) + seq![39u8]
}

/// How a POSIX shell reads a word: inside single quotes every byte stands
/// for itself up to the closing quote; outside, a quote opens quoting and a
/// backslash makes the next byte stand for itself.
pub open spec fn shell_read(s: Seq<u8>, quoted: bool) -> Seq<u8>
    decreases s.len(),
{
    if s.len() == 0 {
        Seq::empty()
    } else if quoted {
        if s[0] == 39u8 {
            shell_read(s.drop_first(), false)
        } else {
            seq![s[0]] + shell_read(s.drop_first(), true)
        }
    } else if s[0] == 39u8 {
        shell_read(s.drop_first(), true)
    } else if s[0] == 92u8 && s.len() >= 2 {
        seq![s[1]] + shell_read(s.skip(2), false)
    } else {
        seq![s[0]] + shell_read(s.drop_first(), false)
    }
}

proof fn lemma_quote_body_front(arg: Seq<u8>)
    requires
        arg.len() > 0,
    ensures
        quote_body(arg) == quote_piece(arg[0]) + quote_body(arg.drop_first()),
    decreases arg.len(),
{
    if arg.len() == 1 {
        assert(arg.drop_last() =~= Seq::<u8>::empty());
        assert(arg.drop_first() =~= Seq::<u8>::empty());
        assert(quote_body(arg) =~= quote_piece(arg[0]) + quote_body(arg.drop_first()));
    } else {
        lemma_quote_body_front(arg.drop_last());
        assert(arg.drop_last().drop_first() =~= arg.drop_first().drop_last());
        assert(arg.drop_first().last() == arg.last());
        assert(quote_body(arg) =~= quote_piece(arg[0]) + quote_body(arg.drop_first()));
    }
}

proof fn lemma_read_quoted_body(arg: Seq<u8>, tail: Seq<u8>)
    ensures
        shell_read(quote_body(arg) + seq![39u8] + tail, true) == arg + shell_read(tail, false),
    decreases arg.len(),
{
    let s = quote_body(arg) + seq![39u8] + tail;
    if arg.len() == 0 {
        assert(s =~= seq![39u8] + tail);
        assert(s.drop_first() =~= tail);
        assert(arg + shell_read(tail, false) =~= shell_read(tail, false));
    } else {
        lemma_quote_body_front(arg);
        let rest = quote_body(arg.drop_first()) + seq![39u8] + tail;
        lemma_read_quoted_body(arg.drop_first(), tail);
        if arg[0] == 39u8 {
            assert(s =~= seq![39u8, 92u8, 39u8, 39u8] + rest);
            assert(s.drop_first() =~= seq![92u8, 39u8, 39u8] + rest);
            let t1 = s.drop_first();
            assert(t1.skip(2) =~= seq![39u8] + rest);
            assert((seq![39u8] + rest).drop_first() =~= rest);
            assert(shell_read(s, true) == shell_read(t1, false));
            assert(shell_read(t1, false) == seq![39u8] + shell_read(t1.skip(2), false));
            assert(shell_read(t1.skip(2), false) == shell_read(rest, true));
        } else {
            assert(s =~= seq![arg[0]] + rest);
            assert(s.drop_first() =~= rest);
        }
        assert(arg =~= seq![arg[0]] + arg.drop_first());
        assert(arg + shell_read(tail, false) =~= seq![arg[0]] + (arg.drop_first() + shell_read(
            tail,
            false,
        )));
    }
}

/// A quoted argument reads back, in a POSIX shell, as the argument itself.
pub proof fn lemma_shell_quote_reads_back(arg: Seq<u8>)
    ensures
        shell_read(spec_shell_quote(arg), false) == arg,
{
    let s = spec_shell_quote(arg);
    lemma_read_quoted_body(arg, Seq::empty());
    assert(s.drop_first() =~= quote_body(arg) + seq![39u8] + Seq::<u8>::empty());
    assert(shell_read(Seq::<u8>::empty(), false) =~= Seq::<u8>::empty());
    assert(arg + Seq::<u8>::empty() =~= arg);
}

/// Appends `arg` to `out` as one shell word in single quotes; each `'` in
/// it becomes `'\''`.
pub fn shell_quote(arg: &[u8], out: &mut Vec<u8>)
    ensures
        final(out)@ == old(out)@ + spec_shell_quote(arg@),
{
    out.push(39u8);
    let ghost start = out@;
    let mut i: usize = 0;
    while i < arg.len()
        invariant
            i <= arg@.len(),
            out@ == start + quote_body(arg@.take(i as int)),
        decreases arg@.len() - i,
    {
        let b = arg[i];
        if b == 39u8 {
            out.push(39u8);
            out.push(92u8);
            out.push(39u8);
            out.push(39u8);
        } else {
            out.push(b);
        }
        proof {
            assert(arg@.take(i + 1).drop_last() =~= arg@.take(i as int));
            assert(out@ =~= start + quote_body(arg@.take(i + 1)));
        }
        i = i + 1;
    }
    out.push(39u8);
    proof {
        assert(arg@.take(arg@.len() as int) =~= arg@);
        assert(out@ =~= old(out)@ + spec_shell_quote(arg@));
    }
}

/// The command line for `name` with `args`: the name as it is, then each
/// argument quoted, all separated by spaces.
pub open spec fn spec_command_line(name: Seq<u8>, args: Seq<Seq<u8>>) -> Seq<u8>
    decreases args.len(),
{
    if args.len() == 0 {
        name
    } else {
        spec_command_line(name, args.drop_last()) + seq![32u8] + spec_shell_quote(args.last())
    }
}

pub open spec fn args_view(args: Seq<Vec<u8>>) -> Seq<Seq<u8>> {
    args.map_values(|a: Vec<u8>| a@)
}

/// Builds the command line that runs `name` with `args`.
pub fn command_line(name: &[u8], args: &[Vec<u8>]) -> (r: Vec<u8>)
    ensures
        r@ == spec_command_line(name@, args_view(args@)),
{
    let mut cmd = vstd::slice::slice_to_vec(name);
    let mut i: usize = 0;
    while i < args.len()
        invariant
            i <= args@.len(),
            cmd@ == spec_command_line(name@, args_view(args@.take(i as int))),
        decreases args@.len() - i,
    {
        cmd.push(32u8);
        shell_quote(args[i].as_slice(), &mut cmd);
        proof {
            assert(args_view(args@.take(i + 1)).drop_last() =~= args_view(args@.take(i as int)));
            assert(args_view(args@.take(i + 1)).last() == args@[i as int]@);
        }
        i = i + 1;
    }
    proof {
        assert(args@.take(args@.len() as int) =~= args@);
    }
    cmd
}

// ─── Exit status ─────────────────────────────────────────────────────────────

/// The exit code in a wait status: the exit status when the process ended
/// normally, else the number of the signal that ended it.
pub open spec fn spec_exit_code(stat: i32) -> i32 {
    if stat & 0x7f == 0 {
        (stat & 0xff00) >> 8
    } else {
        stat & 0x7f
    }
}

/// Reads the exit code out of a wait status.
pub fn exit_code(stat: i32) -> (r: i32)
    ensures
        r == spec_exit_code(stat),
{
    if stat & 0x7f == 0 {
        (stat & 0xff00) >> 8
    } else {
        stat & 0x7f
    }
}

/// What a command gives back.
#[derive(Debug)]
pub enum CommandOutcome {
    /// It exited with code 0: its output.
    Output(Vec<u8>),
    /// Otherwise: a message and the exit code.
    Failed { message: Vec<u8>, code: i32 },
}

/// `exited with code N`.
pub open spec fn spec_exit_message(code: i32) -> Seq<u8> {
    seq![101u8, 120u8, 105u8, 116u8, 101u8, 100u8, 32u8, 119u8, 105u8, 116u8, 104u8, 32u8, 99u8, 111u8, 100u8, 101u8, 32u8]
        + spec_decimal(code as int)
}

/// Decides what a command that wrote `output` and ended with wait status
/// `stat` gives back.
pub fn command_outcome(output: Vec<u8>, stat: i32) -> (r: CommandOutcome)
    ensures
        spec_exit_code(stat) == 0 ==> r == CommandOutcome::Output(output),
        spec_exit_code(stat) != 0 ==> (r matches CommandOutcome::Failed { message, code } && code
            == spec_exit_code(stat) && message@ == spec_exit_message(code)),
{
    let code = exit_code(stat);
    if code == 0 {
        CommandOutcome::Output(output)
    } else {
        let mut message: Vec<u8> = vec![101u8, 120u8, 105u8, 116u8, 101u8, 100u8, 32u8, 119u8, 105u8, 116u8, 104u8, 32u8, 99u8, 111u8, 100u8, 101u8, 32u8];
        let digits = integer_to_string(code as i64);
        let mut k: usize = 0;
        let ghost prefix = message@;
        while k < digits.len()
            invariant
                k <= digits@.len(),
                message@ == prefix + digits@.take(k as int),
            decreases digits@.len() - k,
        {
            message.push(digits[k]);
            proof {
                assert(digits@.take(k + 1) =~= digits@.take(k as int).push(digits@[k as int]));
                assert(message@ =~= prefix + digits@.take(k + 1));
            }
            k = k + 1;
        }
        proof {
            assert(digits@.take(digits@.len() as int) =~= digits@);
            assert(message@ =~= spec_exit_message(code));
        }
        CommandOutcome::Failed { message, code }
    }
}

} // verus!

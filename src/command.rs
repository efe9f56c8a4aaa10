use vstd::prelude::*;
use vstd::utf8::encode_utf8;
use crate::grid::Image;
use crate::classic::{classic_result, run_classic};
use crate::kernel::{kernel_result, run_kernel};
use crate::vector::{vector_result, run_vectorfield};

verus! {

/// A command of the sorting session.
#[derive(Clone, Debug, PartialEq, Eq)]
pub enum Command {
    /// Load the image at the path.
    Open(String),
    /// Store the current image at the path.
    Save(String),
    /// `classic <vertical> <reverse> <reverse_threshold> <threshold>`.
    Classic { vertical: bool, reverse: bool, reverse_threshold: bool, threshold: u32 },
    /// `kernel <reverse> <_> <_> <numx> <numy>`: the two middle tokens are
    /// reserved and ignored.
    Kernel { reverse: bool, numx: u32, numy: u32 },
    /// `vector <reverse> <size> <amount> <spacing> <expression>`: the
    /// expression gives the flow field's angle in `x` and `y`.
    Vector { reverse: bool, size: u32, amount: u32, spacing: u32, expression: String },
    /// End the session.
    Exit,
}

/// What can go wrong in a session.
#[derive(Clone, Copy, PartialEq, Eq, Structural, Debug)]
pub enum CommandError {
    /// The command reads or changes the image, and none is open.
    NoImageLoaded,
    /// An unknown command, a wrong number of arguments, or an argument that
    /// does not parse.
    InvalidCommand,
    /// The vector-field expression does not parse, or does not bind `x` and `y`.
    ExpressionError,
}

/// The bytes of a token.
pub open spec fn word(t: String) -> Seq<u8> {
    encode_utf8(t@)
}

/// The command a line of tokens stands for, if any.
pub open spec fn command_spec(toks: Seq<String>) -> Option<Command> {
    if toks.len() == 0 {
        None
    } else {
        let head = word(toks[0]);
        let n = toks.len();
        if head == seq![111u8, 112u8, 101u8, 110u8] {
            if n == 2 {
                Some(Command::Open(toks[1]))
            } else {
                None
            }
        } else if head == seq![115u8, 97u8, 118u8, 101u8] {
            if n == 2 {
                Some(Command::Save(toks[1]))
            } else {
                None
            }
        } else if head == seq![99u8, 108u8, 97u8, 115u8, 115u8, 105u8, 99u8] {
            if n == 5 && bool_of(word(toks[1])) is Some && bool_of(word(toks[2])) is Some
                && bool_of(word(toks[3])) is Some && uint_of(word(toks[4])) is Some {
                Some(
                    Command::Classic {
                        vertical: bool_of(word(toks[1]))->0,
                        reverse: bool_of(word(toks[2]))->0,
                        reverse_threshold: bool_of(word(toks[3]))->0,
                        threshold: uint_of(word(toks[4]))->0,
                    },
                )
            } else {
                None
            }
        } else if head == seq![107u8, 101u8, 114u8, 110u8, 101u8, 108u8] {
            if n == 6 && bool_of(word(toks[1])) is Some && uint_of(word(toks[4])) is Some
                && uint_of(word(toks[5])) is Some && uint_of(word(toks[4]))->0 > 0
                && uint_of(word(toks[5]))->0 > 0 {
                Some(
                    Command::Kernel {
                        reverse: bool_of(word(toks[1]))->0,
                        numx: uint_of(word(toks[4]))->0,
                        numy: uint_of(word(toks[5]))->0,
                    },
                )
            } else {
                None
            }
        } else if head == seq![118u8, 101u8, 99u8, 116u8, 111u8, 114u8] {
            if n == 6 && bool_of(word(toks[1])) is Some && uint_of(word(toks[2])) is Some
                && uint_of(word(toks[3])) is Some && uint_of(word(toks[4])) is Some {
                Some(
                    Command::Vector {
                        reverse: bool_of(word(toks[1]))->0,
                        size: uint_of(word(toks[2]))->0,
                        amount: uint_of(word(toks[3]))->0,
                        spacing: uint_of(word(toks[4]))->0,
                        expression: toks[5],
                    },
                )
            } else {
                None
            }
        } else if head == seq![101u8, 120u8, 105u8, 116u8] {
            if n == 1 {
                Some(Command::Exit)
            } else {
                None
            }
        } else {
            None
        }
    }
}

/// Whether the command reads or changes the current image.
pub open spec fn needs_image(cmd: Command) -> bool {
    match cmd {
        Command::Open(_) | Command::Exit => false,
        _ => true,
    }
}

/// Whether running `cmd` succeeds: it fails when it needs an image and none
/// is open, on a kernel grid with no blocks, and on a vector command whose
/// flow field does not hold one step per pixel.
pub open spec fn command_outcome(img: Option<Image>, cmd: Command, steps: Seq<(u32, u32)>) -> Result<
    (),
    CommandError,
> {
    if needs_image(cmd) && img is None {
        Err(CommandError::NoImageLoaded)
    } else if cmd matches Command::Kernel { numx, numy, .. } && (numx == 0 || numy == 0) {
        Err(CommandError::InvalidCommand)
    } else if cmd is Vector && steps.len() != img->0.pixels@.len() {
        Err(CommandError::InvalidCommand)
    } else {
        Ok(())
    }
}

/// What running `cmd` does to the session's image, given that one is open
/// where the command needs it. Loading and storing are left to the caller.
pub open spec fn command_effect(
    before: Option<Image>,
    after: Option<Image>,
    cmd: Command,
    steps: Seq<(u32, u32)>,
) -> bool {
    match cmd {
        Command::Classic { vertical, reverse, reverse_threshold, threshold } => after is Some
            && classic_result(before->0, after->0, vertical, reverse, reverse_threshold, threshold),
        Command::Kernel { reverse, numx, numy } => after is Some && kernel_result(
            before->0,
            after->0,
            reverse,
            numx,
            numy,
        ),
        Command::Vector { reverse, size, amount, spacing, .. } => after is Some && vector_result(
            before->0,
            after->0,
            reverse,
            size,
            amount,
            spacing,
            steps,
        ),
        _ => after == before,
    }
}

fn token(tokens: &Vec<String>, i: usize) -> (r: &[u8])
    requires
        i < tokens@.len(),
    ensures
        r@ == word(tokens@[i as int]),
{
    tokens[i].as_str().as_bytes()
}

fn same_bytes(a: &[u8], b: &[u8]) -> (r: bool)
    ensures
        r == (a@ == b@),
{
    if a.len() != b.len() {
        return false;
    }
    let mut i: usize = 0;
    while i < a.len()
        invariant
            a@.len() == b@.len(),
            i <= a@.len(),
            forall|k: int| 0 <= k < i ==> a@[k] == b@[k],
        decreases a@.len() - i,
    {
        if a[i] != b[i] {
            return false;
        }
        i = i + 1;
    }
    proof {
        assert(a@ =~= b@);
    }
    true
}

/// The value of a run of decimal digits.
pub open spec fn digits_value(b: Seq<u8>) -> int
    decreases b.len(),
{
    if b.len() == 0 {
        0
    } else {
        digits_value(b.drop_last()) * 10 + (b.last() - 48)
    }
}

pub open spec fn all_digits(b: Seq<u8>) -> bool {
    forall|i: int| 0 <= i < b.len() ==> 48 <= #[trigger] b[i] <= 57
}

/// One or more decimal digits whose value fits in 32 bits.
pub open spec fn digits_of(b: Seq<u8>) -> Option<u32> {
    if b.len() > 0 && all_digits(b) && digits_value(b) <= u32::MAX {
        Some(digits_value(b) as u32)
    } else {
        None
    }
}

/// An unsigned integer token: an optional `+`, then one or more decimal
/// digits whose value fits in 32 bits.
pub open spec fn uint_of(b: Seq<u8>) -> Option<u32> {
    if b.len() > 0 && b[0] == 43 {
        digits_of(b.drop_first())
    } else {
        digits_of(b)
    }
}

/// A boolean token: `true` or `false`.
pub open spec fn bool_of(b: Seq<u8>) -> Option<bool> {
    if b == seq![116u8, 114u8, 117u8, 101u8] {
        Some(true)
    } else if b == seq![102u8, 97u8, 108u8, 115u8, 101u8] {
        Some(false)
    } else {
        None
    }
}

proof fn lemma_digits_prefix(b: Seq<u8>, i: int)
    requires
        all_digits(b),
        0 <= i <= b.len(),
    ensures
        0 <= digits_value(b.take(i)) <= digits_value(b),
    decreases b.len(),
{
    if i == b.len() {
        assert(b.take(i) =~= b);
        if b.len() > 0 {
            lemma_digits_prefix(b.drop_last(), 0);
        }
    } else {
        assert(b.drop_last().take(i) =~= b.take(i));
        lemma_digits_prefix(b.drop_last(), i);
    }
}

/// Parses an unsigned integer token.
pub fn parse_uint(b: &[u8]) -> (r: Option<u32>)
    ensures
        r == uint_of(b@),
{
    let from: usize = if b.len() > 0 && b[0] == 43 {
        1
    } else {
        0
    };
    let ghost d = b@.subrange(from as int, b@.len() as int);
    proof {
        if from == 1 {
            assert(d =~= b@.drop_first());
        } else {
            assert(d =~= b@);
        }
        assert(uint_of(b@) == digits_of(d));
    }
    if b.len() == from {
        return None;
    }
    let mut value: u64 = 0;
    let mut i: usize = from;
    while i < b.len()
        invariant
            from <= i <= b@.len(),
            d == b@.subrange(from as int, b@.len() as int),
            uint_of(b@) == digits_of(d),
            all_digits(d.take(i - from)),
            value == digits_value(d.take(i - from)),
            value <= u32::MAX,
        decreases b@.len() - i,
    {
        let c = b[i];
        assert(c == d[i - from]);
        if c < 48 || c > 57 {
            proof {
                assert(!all_digits(d));
            }
            return None;
        }
        assert(d.take(i + 1 - from).drop_last() =~= d.take(i - from));
        value = value * 10 + (c - 48) as u64;
        if value > u32::MAX as u64 {
            proof {
                if all_digits(d) {
                    lemma_digits_prefix(d, i + 1 - from);
                }
            }
            return None;
        }
        i = i + 1;
    }
    proof {
        assert(d.take(i - from) =~= d);
    }
    Some(value as u32)
}

/// Parses a boolean token.
pub fn parse_bool(b: &[u8]) -> (r: Option<bool>)
    ensures
        r == bool_of(b@),
{
    let t: [u8; 4] = [116, 114, 117, 101];
    let f: [u8; 5] = [102, 97, 108, 115, 101];
    if same_bytes(b, t.as_slice()) {
        Some(true)
    } else if same_bytes(b, f.as_slice()) {
        Some(false)
    } else {
        None
    }
}

/// Reads a line of tokens as a command.
pub fn parse_command(tokens: &Vec<String>) -> (r: Result<Command, CommandError>)
    ensures
        r == match command_spec(tokens@) {
            Some(c) => Ok(c),
            None => Err(CommandError::InvalidCommand),
        },
{
    let n = tokens.len();
    if n == 0 {
        return Err(CommandError::InvalidCommand);
    }
    let head = token(tokens, 0);
    let w_open: [u8; 4] = [111, 112, 101, 110];
    let w_save: [u8; 4] = [115, 97, 118, 101];
    let w_classic: [u8; 7] = [99, 108, 97, 115, 115, 105, 99];
    let w_kernel: [u8; 6] = [107, 101, 114, 110, 101, 108];
    let w_vector: [u8; 6] = [118, 101, 99, 116, 111, 114];
    let w_exit: [u8; 4] = [101, 120, 105, 116];
    if same_bytes(head, w_open.as_slice()) {
        if n == 2 {
            Ok(Command::Open(tokens[1].clone()))
        } else {
            Err(CommandError::InvalidCommand)
        }
    } else if same_bytes(head, w_save.as_slice()) {
        if n == 2 {
            Ok(Command::Save(tokens[1].clone()))
        } else {
            Err(CommandError::InvalidCommand)
        }
    } else if same_bytes(head, w_classic.as_slice()) {
        if n != 5 {
            return Err(CommandError::InvalidCommand);
        }
        match (
            parse_bool(token(tokens, 1)),
            parse_bool(token(tokens, 2)),
            parse_bool(token(tokens, 3)),
            parse_uint(token(tokens, 4)),
        ) {
            (Some(vertical), Some(reverse), Some(reverse_threshold), Some(threshold)) => Ok(
                Command::Classic { vertical, reverse, reverse_threshold, threshold },
            ),
            _ => Err(CommandError::InvalidCommand),
        }
    } else if same_bytes(head, w_kernel.as_slice()) {
        if n != 6 {
            return Err(CommandError::InvalidCommand);
        }
        match (parse_bool(token(tokens, 1)), parse_uint(token(tokens, 4)), parse_uint(token(tokens, 5))) {
            (Some(reverse), Some(numx), Some(numy)) => {
                if numx > 0 && numy > 0 {
                    Ok(Command::Kernel { reverse, numx, numy })
                } else {
                    Err(CommandError::InvalidCommand)
                }
            },
            _ => Err(CommandError::InvalidCommand),
        }
    } else if same_bytes(head, w_vector.as_slice()) {
        if n != 6 {
            return Err(CommandError::InvalidCommand);
        }
        match (
            parse_bool(token(tokens, 1)),
            parse_uint(token(tokens, 2)),
            parse_uint(token(tokens, 3)),
            parse_uint(token(tokens, 4)),
        ) {
            (Some(reverse), Some(size), Some(amount), Some(spacing)) => Ok(
                Command::Vector { reverse, size, amount, spacing, expression: tokens[5].clone() },
            ),
            _ => Err(CommandError::InvalidCommand),
        }
    } else if same_bytes(head, w_exit.as_slice()) {
        if n == 1 {
            Ok(Command::Exit)
        } else {
            Err(CommandError::InvalidCommand)
        }
    } else {
        Err(CommandError::InvalidCommand)
    }
}

/// Runs a command on the session's image: a sorting strategy, with `steps`
/// as the flow field of a vector command (one step per pixel, stored like
/// the pixels; unused by other commands). `Open`, `Save` and `Exit` leave
/// the image to the caller; a command that needs an image fails with
/// `NoImageLoaded` when none is open, before anything is touched.
pub fn run_command(img: &mut Option<Image>, cmd: &Command, steps: &Vec<(u32, u32)>) -> (r: Result<
    (),
    CommandError,
>)
    requires
        *old(img) matches Some(i) ==> i.wf(),
    ensures
        r == command_outcome(*old(img), *cmd, steps@),
        r is Err ==> *final(img) == *old(img),
        r is Ok ==> command_effect(*old(img), *final(img), *cmd, steps@),
{
    if needs_image_exec(cmd) && img.is_none() {
        return Err(CommandError::NoImageLoaded);
    }
    if let Command::Kernel { numx, numy, .. } = cmd {
        if *numx == 0 || *numy == 0 {
            return Err(CommandError::InvalidCommand);
        }
    }
    if let Command::Vector { .. } = cmd {
        if let Some(im) = img {
            if steps.len() != im.pixels.len() {
                return Err(CommandError::InvalidCommand);
            }
        }
    }
    match img {
        Some(im) => {
            match cmd {
                Command::Classic { vertical, reverse, reverse_threshold, threshold } => {
                    run_classic(im, *vertical, *reverse, *reverse_threshold, *threshold);
                },
                Command::Kernel { reverse, numx, numy } => {
                    run_kernel(im, *reverse, *numx, *numy);
                },
                Command::Vector { reverse, size, amount, spacing, .. } => {
                    run_vectorfield(im, *reverse, *size, *amount, *spacing, steps);
                },
                _ => {},
            }
        },
        None => {},
    }
    Ok(())
}

fn needs_image_exec(cmd: &Command) -> (r: bool)
    ensures
        r == needs_image(*cmd),
{
    match cmd {
        Command::Open(_) | Command::Exit => false,
        _ => true,
    }
}

} // verus!

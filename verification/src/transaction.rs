//! The transaction file: its name, where it lies, and the command that runs it.

use vstd::prelude::*;
use vstd::string::StringExecFns;
use rand::rngs::ThreadRng;

verus! {

/// The letters a file id is drawn from.
pub const ALPHABET: &'static str = "abcdefghijklmnopqrstuvwxyz";

/// The ending of a transaction file's name.
pub const EXTENSION: &'static str = ".rtm";

/// The program that runs a transaction file.
pub const SIMULATOR: &'static str = "resim";

/// The word that tells the simulator to run a file.
pub const RUN_COMMAND: &'static str = "run";

/// Whether `c` is one of the 26 lowercase ASCII letters.
pub open spec fn is_lowercase_letter(c: char) -> bool {
    'a' <= c && c <= 'z'
}

/// The letters of [`ALPHABET`], spelled out.
pub open spec fn letters() -> Seq<char> {
    seq![
        'a', 'b', 'c', 'd', 'e', 'f', 'g', 'h', 'i', 'j', 'k', 'l', 'm', 'n', 'o', 'p', 'q', 'r',
        's', 't', 'u', 'v', 'w', 'x', 'y', 'z',
    ]
}

/// [`ALPHABET`] holds the 26 lowercase letters in their order.
pub proof fn lemma_alphabet()
    ensures
        ALPHABET@ == letters(),
        ALPHABET@.len() == 26,
        forall|i: int| 0 <= i < 26 ==> is_lowercase_letter(#[trigger] ALPHABET@[i]),
{
    reveal_strlit("abcdefghijklmnopqrstuvwxyz");
    assert(ALPHABET@ =~= letters());
}

/// The generator of random numbers that `rand` keeps for each thread.
#[verifier::external_type_specification]
#[verifier::external_body]
pub struct ExThreadRng(ThreadRng);

/// `rand::thread_rng` hands out the calling thread's generator. Nothing is
/// claimed of it. It panics where the system has no source of randomness to
/// seed the generator from.
pub assume_specification[ rand::thread_rng ]() -> (rng: ThreadRng)
;

/// Draws a number below `bound` with `rand::Rng::gen_range` on the range
/// `0..bound`. The call panics on an empty range, hence the demand on
/// `bound`; of the number drawn only its range is known.
#[verifier::external_body]
fn random_below(rng: &mut ThreadRng, bound: usize) -> (drawn: usize)
    requires
        bound > 0,
    ensures
        drawn < bound,
{
    rand::Rng::gen_range(rng, 0..bound)
}

/// The letter of [`ALPHABET`] at `index`, counted from zero.
pub fn alphabet_letter(index: usize) -> (c: char)
    requires
        index < ALPHABET@.len(),
    ensures
        c == ALPHABET@[index as int],
{
    ALPHABET.get_char(index)
}

/// A name of `len` letters, each drawn at random from [`ALPHABET`]. A `len`
/// below one gives the empty name.
pub fn generate_random_file_id(len: i32) -> (id: String)
    ensures
        id@.len() == if len > 0 { len as int } else { 0 },
        forall|i: int| 0 <= i < id@.len() ==> is_lowercase_letter(#[trigger] id@[i]),
{
    proof {
        lemma_alphabet();
    }
    let size = ALPHABET.unicode_len();
    let mut id = String::new();
    let mut rng = rand::thread_rng();
    let mut drawn: i32 = 0;
    while drawn < len
        invariant
            size == 26,
            ALPHABET@.len() == 26,
            forall|i: int| 0 <= i < 26 ==> is_lowercase_letter(#[trigger] ALPHABET@[i]),
            0 <= drawn,
            drawn <= len || drawn == 0,
            id@.len() == drawn,
            forall|i: int| 0 <= i < id@.len() ==> is_lowercase_letter(#[trigger] id@[i]),
        decreases len - drawn,
    {
        let index = random_below(&mut rng, size);
        id.push(alphabet_letter(index));
        drawn += 1;
    }
    id
}

/// The name of the transaction file with the given id.
pub open spec fn file_name(id: Seq<char>) -> Seq<char> {
    id + EXTENSION@
}

/// Where the transaction file with the given id lies in `directory`.
pub open spec fn file_path(directory: Seq<char>, id: Seq<char>) -> Seq<char> {
    directory + seq!['/'] + file_name(id)
}

/// [`EXTENSION`], spelled out.
pub proof fn lemma_extension()
    ensures
        EXTENSION@ == seq!['.', 'r', 't', 'm'],
{
    reveal_strlit(".rtm");
    assert(EXTENSION@ =~= seq!['.', 'r', 't', 'm']);
}

/// The path of the transaction file with the given id in `directory`: the
/// directory, a slash, the id and the ending `.rtm`.
pub fn transaction_file_path(directory: &str, id: &str) -> (path: String)
    ensures
        path@ == file_path(directory@, id@),
{
    let mut path = String::from_str(directory);
    path.push('/');
    path.append(id);
    path.append(EXTENSION);
    assert(path@ =~= file_path(directory@, id@));
    path
}

/// What the simulator is called with to run the file at `path`: the word
/// `run`, then the path and nothing more.
pub fn simulator_arguments(path: &str) -> (arguments: Vec<String>)
    ensures
        arguments@.len() == 2,
        arguments@[0]@ == RUN_COMMAND@,
        arguments@[1]@ == path@,
{
    let mut arguments: Vec<String> = Vec::new();
    arguments.push(String::from_str(RUN_COMMAND));
    arguments.push(String::from_str(path));
    arguments
}

} // verus!

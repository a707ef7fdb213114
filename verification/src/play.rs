//! Interactive play against the engine: what one line of the human's
//! input asks for. The caller reads the line (trimmed), carries out the
//! action (listing moves, asking the engine for a hint, taking moves
//! back, playing the move) and prints the board.

use crate::games::forward_chess::{move_text, FcMove, ForwardChess};
use vstd::prelude::*;

verus! {

/// What a line of input asks for.
#[derive(Clone, Copy, PartialEq, Eq, Debug)]
pub enum PlayAction {
    /// An empty line: nothing.
    Nothing,
    /// `quit`, `exit` or `q`.
    Quit,
    /// `?`: list the legal moves.
    ListMoves,
    /// `hint`: show the engine's move.
    Hint,
    /// `undo`: take back this many positions (0: nothing to undo).
    TakeBack(usize),
    /// A legal move, written as the game prints it (case and `=` aside).
    Play(FcMove),
    /// Text that names no legal move.
    NotLegal,
}

/// A character folded to lower case (ASCII letters only), as a code.
pub open spec fn lower_code(c: char) -> u32 {
    if 'A' <= c && c <= 'Z' {
        (c as u32 + 32) as u32
    } else {
        c as u32
    }
}

/// Move text compared case-insensitively and without `=`.
pub open spec fn move_key(s: Seq<char>) -> Seq<u32>
    decreases s.len(),
{
    if s.len() == 0 {
        Seq::empty()
    } else {
        let r = move_key(s.drop_last());
        if s.last() == '=' {
            r
        } else {
            r.push(lower_code(s.last()))
        }
    }
}

/// Index, at or after `i`, of the first legal move whose text matches
/// `key` (`legal.len()` if none).
pub open spec fn first_match(w: int, legal: Seq<FcMove>, key: Seq<u32>, i: int) -> int
    decreases legal.len() - i,
{
    if i < 0 || i >= legal.len() || move_key(move_text(w, legal[i])) == key {
        i
    } else {
        first_match(w, legal, key, i + 1)
    }
}

/// Positions `undo` takes back: the human's move and the engine's reply,
/// or whatever is left above the initial position.
pub open spec fn take_back(history_len: int) -> int {
    if history_len > 2 {
        2
    } else {
        history_len - 1
    }
}

/// The commands that are not moves.
pub open spec fn is_command(t: Seq<char>) -> bool {
    t == ""@ || t == "quit"@ || t == "exit"@ || t == "q"@ || t == "?"@ || t == "hint"@ || t == "undo"@
}

fn text_is(a: &str, b: &str) -> (r: bool)
    ensures
        r == (a@ == b@),
{
    let n = a.unicode_len();
    if n != b.unicode_len() {
        return false;
    }
    let mut i: usize = 0;
    while i < n
        invariant
            n == a@.len(),
            n == b@.len(),
            i <= n,
            forall|j: int| 0 <= j < i ==> a@[j] == b@[j],
        decreases n - i,
    {
        if a.get_char(i) != b.get_char(i) {
            return false;
        }
        i += 1;
    }
    assert(a@ =~= b@);
    true
}

fn key_of(s: &str) -> (r: Vec<u32>)
    ensures
        r@ == move_key(s@),
{
    let n = s.unicode_len();
    let mut r: Vec<u32> = Vec::new();
    let mut i: usize = 0;
    while i < n
        invariant
            n == s@.len(),
            i <= n,
            r@ == move_key(s@.take(i as int)),
        decreases n - i,
    {
        let c = s.get_char(i);
        proof {
            assert(s@.take(i + 1).drop_last() =~= s@.take(i as int));
            assert(s@.take(i + 1).last() == c);
        }
        if c != '=' {
            let code: u32 = if 'A' <= c && c <= 'Z' {
                c as u32 + 32
            } else {
                c as u32
            };
            r.push(code);
        }
        i += 1;
    }
    assert(s@.take(n as int) =~= s@);
    r
}

fn same_codes(a: &Vec<u32>, b: &Vec<u32>) -> (r: bool)
    ensures
        r == (a@ == b@),
{
    if a.len() != b.len() {
        return false;
    }
    let mut i: usize = 0;
    while i < a.len()
        invariant
            a@.len() == b@.len(),
            i <= a@.len(),
            forall|j: int| 0 <= j < i ==> a@[j] == b@[j],
        decreases a@.len() - i,
    {
        if a[i] != b[i] {
            return false;
        }
        i += 1;
    }
    assert(a@ =~= b@);
    true
}

/// What one (trimmed) line of input asks for, given how many positions
/// the game's history holds and the legal moves of the position.
pub fn play_step(game: &ForwardChess, history_len: usize, legal: &Vec<FcMove>, input: &str) -> (a: PlayAction)
    requires
        game.wf_rules(),
        history_len >= 1,
        forall|i: int|
            0 <= i < legal@.len() ==> (#[trigger] legal@[i]).from < game.n() && legal@[i].to < game.n(),
    ensures
        input@ == ""@ ==> a == PlayAction::Nothing,
        input@ == "quit"@ || input@ == "exit"@ || input@ == "q"@ ==> a == PlayAction::Quit,
        input@ == "?"@ ==> a == PlayAction::ListMoves,
        input@ == "hint"@ ==> a == PlayAction::Hint,
        input@ == "undo"@ ==> a == PlayAction::TakeBack(take_back(history_len as int) as usize),
        !is_command(input@) ==> ({
            let j = first_match(game.w(), legal@, move_key(input@), 0);
            if j < legal@.len() {
                a == PlayAction::Play(legal@[j])
            } else {
                a == PlayAction::NotLegal
            }
        }),
{
    proof {
        reveal_strlit("");
        reveal_strlit("quit");
        reveal_strlit("exit");
        reveal_strlit("q");
        reveal_strlit("?");
        reveal_strlit("hint");
        reveal_strlit("undo");
        assert("hint"@ != "quit"@ && "hint"@ != "exit"@) by {
            assert("hint"@[0] != "quit"@[0] && "hint"@[0] != "exit"@[0]);
        }
        assert("undo"@ != "quit"@ && "undo"@ != "exit"@ && "undo"@ != "hint"@) by {
            assert("undo"@[0] != "quit"@[0] && "undo"@[0] != "exit"@[0] && "undo"@[0] != "hint"@[0]);
        }
    }
    if text_is(input, "") {
        return PlayAction::Nothing;
    }
    if text_is(input, "quit") || text_is(input, "exit") || text_is(input, "q") {
        return PlayAction::Quit;
    }
    if text_is(input, "?") {
        return PlayAction::ListMoves;
    }
    if text_is(input, "hint") {
        return PlayAction::Hint;
    }
    if text_is(input, "undo") {
        let back = if history_len > 2 {
            2
        } else {
            history_len - 1
        };
        return PlayAction::TakeBack(back);
    }
    let wanted = key_of(input);
    let mut i: usize = 0;
    while i < legal.len()
        invariant
            game.wf_rules(),
            i <= legal@.len(),
            wanted@ == move_key(input@),
            !is_command(input@),
            forall|j: int|
                0 <= j < legal@.len() ==> (#[trigger] legal@[j]).from < game.n() && legal@[j].to < game.n(),
            first_match(game.w(), legal@, wanted@, i as int) == first_match(game.w(), legal@, wanted@, 0),
        decreases legal@.len() - i,
    {
        let text = game.format_move(legal[i]);
        let k = key_of(text.as_str());
        if same_codes(&k, &wanted) {
            return PlayAction::Play(legal[i]);
        }
        i += 1;
    }
    PlayAction::NotLegal
}

} // verus!

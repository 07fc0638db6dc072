use vstd::prelude::*;
use vstd::string::{StrSliceExecFns, StringExecFns};
use crate::data_model::{
    digit_char, direction_char, spec_decimal, spec_move_notation, Direction, MovePiece, PlayerMove,
    WallOrientation, WallPosition,
};

verus! {

/// The direction a letter of the move notation names.
pub open spec fn char_direction(c: char) -> Option<Direction> {
    if c == 'u' {
        Some(Direction::Up)
    } else if c == 'd' {
        Some(Direction::Down)
    } else if c == 'l' {
        Some(Direction::Left)
    } else if c == 'r' {
        Some(Direction::Right)
    } else {
        None
    }
}

/// The value of a decimal digit.
pub open spec fn char_digit(c: char) -> Option<usize> {
    if '0' <= c <= '9' {
        Some((c as int - '0' as int) as usize)
    } else {
        None
    }
}

/// The move that the text `s` names, read from its first three characters: `m`
/// and one or two direction letters (the second, when it is no direction,
/// repeats the first), or `h` or `v` and two digits for a wall.
pub open spec fn spec_parse_move(s: Seq<char>) -> Option<PlayerMove> {
    if s.len() == 0 {
        None
    } else if s[0] == 'm' {
        if s.len() < 2 {
            None
        } else {
            match char_direction(s[1]) {
                None => None,
                Some(d) => {
                    let on_collision = if s.len() >= 3 {
                        match char_direction(s[2]) {
                            Some(d2) => d2,
                            None => d,
                        }
                    } else {
                        d
                    };
                    Some(PlayerMove::MovePiece(MovePiece { direction: d, direction_on_collision: on_collision }))
                },
            }
        }
    } else if s[0] == 'h' || s[0] == 'v' {
        if s.len() < 3 {
            None
        } else {
            match (char_digit(s[1]), char_digit(s[2])) {
                (Some(x), Some(y)) => Some(
                    PlayerMove::PlaceWall {
                        orientation: if s[0] == 'h' {
                            WallOrientation::Horizontal
                        } else {
                            WallOrientation::Vertical
                        },
                        position: WallPosition { x, y },
                    },
                ),
                _ => None,
            }
        }
    } else {
        None
    }
}

fn direction_from_char(c: char) -> (d: Option<Direction>)
    ensures
        d == char_direction(c),
{
    if c == 'u' {
        Some(Direction::Up)
    } else if c == 'd' {
        Some(Direction::Down)
    } else if c == 'l' {
        Some(Direction::Left)
    } else if c == 'r' {
        Some(Direction::Right)
    } else {
        None
    }
}

fn digit_value(c: char) -> (v: Option<usize>)
    ensures
        v == char_digit(c),
{
    if c == '0' {
        Some(0)
    } else if c == '1' {
        Some(1)
    } else if c == '2' {
        Some(2)
    } else if c == '3' {
        Some(3)
    } else if c == '4' {
        Some(4)
    } else if c == '5' {
        Some(5)
    } else if c == '6' {
        Some(6)
    } else if c == '7' {
        Some(7)
    } else if c == '8' {
        Some(8)
    } else if c == '9' {
        Some(9)
    } else {
        None
    }
}

/// Reads a move in the notation of the game, as `spec_parse_move` describes.
pub fn parse_player_move(input: &str) -> (m: Option<PlayerMove>)
    ensures
        m == spec_parse_move(input@),
{
    let n = input.unicode_len();
    if n == 0 {
        return None;
    }
    let first = input.get_char(0);
    if first == 'm' {
        if n < 2 {
            return None;
        }
        match direction_from_char(input.get_char(1)) {
            None => None,
            Some(direction) => {
                let direction_on_collision = if n >= 3 {
                    match direction_from_char(input.get_char(2)) {
                        Some(d2) => d2,
                        None => direction,
                    }
                } else {
                    direction
                };
                Some(PlayerMove::MovePiece(MovePiece { direction, direction_on_collision }))
            },
        }
    } else if first == 'h' || first == 'v' {
        if n < 3 {
            return None;
        }
        match (digit_value(input.get_char(1)), digit_value(input.get_char(2))) {
            (Some(x), Some(y)) => Some(
                PlayerMove::PlaceWall {
                    orientation: if first == 'h' {
                        WallOrientation::Horizontal
                    } else {
                        WallOrientation::Vertical
                    },
                    position: WallPosition { x, y },
                },
            ),
            _ => None,
        }
    } else {
        None
    }
}

fn digit_str(d: usize) -> (s: &'static str)
    requires
        d < 10,
    ensures
        s@ == seq![digit_char(d as nat)],
{
    if d == 0 {
        proof { reveal_strlit("0"); }
        "0"
    } else if d == 1 {
        proof { reveal_strlit("1"); }
        "1"
    } else if d == 2 {
        proof { reveal_strlit("2"); }
        "2"
    } else if d == 3 {
        proof { reveal_strlit("3"); }
        "3"
    } else if d == 4 {
        proof { reveal_strlit("4"); }
        "4"
    } else if d == 5 {
        proof { reveal_strlit("5"); }
        "5"
    } else if d == 6 {
        proof { reveal_strlit("6"); }
        "6"
    } else if d == 7 {
        proof { reveal_strlit("7"); }
        "7"
    } else if d == 8 {
        proof { reveal_strlit("8"); }
        "8"
    } else {
        proof { reveal_strlit("9"); }
        "9"
    }
}

/// The decimal digits of `n`.
pub fn decimal(n: usize) -> (s: String)
    ensures
        s@ == spec_decimal(n as nat),
    decreases n,
{
    if n < 10 {
        String::from_str(digit_str(n))
    } else {
        let head = decimal(n / 10);
        head.concat(digit_str(n % 10))
    }
}

fn direction_str(d: Direction) -> (s: &'static str)
    ensures
        s@ == seq![direction_char(d)],
{
    match d {
        Direction::Up => {
            proof { reveal_strlit("u"); }
            "u"
        },
        Direction::Down => {
            proof { reveal_strlit("d"); }
            "d"
        },
        Direction::Left => {
            proof { reveal_strlit("l"); }
            "l"
        },
        Direction::Right => {
            proof { reveal_strlit("r"); }
            "r"
        },
    }
}

/// The text of a move in the notation that `parse_player_move` reads.
pub fn move_to_string(m: &PlayerMove) -> (s: String)
    ensures
        s@ == spec_move_notation(*m),
{
    match m {
        PlayerMove::MovePiece(mp) => {
            proof { reveal_strlit("m"); }
            let s = String::from_str("m");
            let s = s.concat(direction_str(mp.direction));
            s.concat(direction_str(mp.direction_on_collision))
        },
        PlayerMove::PlaceWall { orientation, position } => {
            let s = match orientation {
                WallOrientation::Horizontal => {
                    proof { reveal_strlit("h"); }
                    String::from_str("h")
                },
                WallOrientation::Vertical => {
                    proof { reveal_strlit("v"); }
                    String::from_str("v")
                },
            };
            let x = decimal(position.x);
            let y = decimal(position.y);
            let s = s.concat(x.as_str());
            s.concat(y.as_str())
        },
    }
}

/// A wall whose coordinates are single digits.
pub open spec fn writable(m: PlayerMove) -> bool {
    m matches PlayerMove::PlaceWall { position, .. } ==> position.x < 10 && position.y < 10
}

/// Reading the text of a move gives the move back, for every piece move and
/// every wall with single-digit coordinates.
pub proof fn lemma_parse_notation(m: PlayerMove)
    requires
        writable(m),
    ensures
        spec_parse_move(spec_move_notation(m)) == Some(m),
{
    match m {
        PlayerMove::MovePiece(mp) => {
            let s = spec_move_notation(m);
            assert(s[1] == direction_char(mp.direction));
            assert(s[2] == direction_char(mp.direction_on_collision));
        },
        PlayerMove::PlaceWall { orientation, position } => {
            let s = spec_move_notation(m);
            assert(spec_decimal(position.x as nat) == seq![digit_char(position.x as nat)]);
            assert(spec_decimal(position.y as nat) == seq![digit_char(position.y as nat)]);
            assert(s[1] == digit_char(position.x as nat));
            assert(s[2] == digit_char(position.y as nat));
        },
    }
}

/// The text of a list of moves: each move's text followed by `;`.
pub open spec fn spec_export(moves: Seq<PlayerMove>) -> Seq<char>
    decreases moves.len(),
{
    if moves.len() == 0 {
        Seq::empty()
    } else {
        spec_export(moves.drop_last()) + spec_move_notation(moves.last()) + seq![';']
    }
}

/// Writes the moves of a game as text, each followed by `;`.
pub fn export_moves(moves: &Vec<PlayerMove>) -> (s: String)
    ensures
        s@ == spec_export(moves@),
{
    let mut s = String::new();
    let mut i: usize = 0;
    proof {
        reveal_strlit(";");
        assert(moves@.subrange(0, 0) =~= Seq::<PlayerMove>::empty());
    }
    while i < moves.len()
        invariant
            i <= moves.len(),
            s@ == spec_export(moves@.subrange(0, i as int)),
            ";"@ == seq![';'],
        decreases moves.len() - i,
    {
        let text = move_to_string(&moves[i]);
        s = s.concat(text.as_str());
        s = s.concat(";");
        proof {
            let next = moves@.subrange(0, i + 1);
            assert(next.drop_last() =~= moves@.subrange(0, i as int));
        }
        i += 1;
    }
    assert(moves@.subrange(0, moves@.len() as int) =~= moves@);
    s
}

/// `s` without the `;` at its start.
pub open spec fn trim_front(s: Seq<char>) -> Seq<char>
    decreases s.len(),
{
    if s.len() > 0 && s[0] == ';' {
        trim_front(s.drop_first())
    } else {
        s
    }
}

/// `s` without the `;` at its end.
pub open spec fn trim_back(s: Seq<char>) -> Seq<char>
    decreases s.len(),
{
    if s.len() > 0 && s.last() == ';' {
        trim_back(s.drop_last())
    } else {
        s
    }
}

/// The index of the last `;` of `s`, or -1.
pub open spec fn last_semi(s: Seq<char>) -> int
    decreases s.len(),
{
    if s.len() == 0 {
        -1
    } else if s.last() == ';' {
        s.len() - 1
    } else {
        last_semi(s.drop_last())
    }
}

/// The last semicolon found is a semicolon, and none follows it.
pub proof fn lemma_last_semi(s: Seq<char>)
    ensures
        -1 <= last_semi(s) < s.len(),
        last_semi(s) >= 0 ==> s[last_semi(s)] == ';',
        forall|j: int| last_semi(s) < j < s.len() ==> s[j] != ';',
    decreases s.len(),
{
    if s.len() > 0 && s.last() != ';' {
        lemma_last_semi(s.drop_last());
        assert forall|j: int| last_semi(s) < j < s.len() implies s[j] != ';' by {
            if j < s.len() - 1 {
                assert(s[j] == s.drop_last()[j]);
            }
        }
    }
}

/// The pieces of `s` between its `;`.
pub open spec fn spec_split(s: Seq<char>) -> Seq<Seq<char>>
    decreases s.len(),
{
    let k = last_semi(s);
    if k < 0 {
        seq![s]
    } else {
        proof {
            lemma_last_semi(s);
        }
        spec_split(s.subrange(0, k)) + seq![s.subrange(k + 1, s.len() as int)]
    }
}

/// The moves that the pieces name, or none if one of them names no move.
pub open spec fn parse_all(pieces: Seq<Seq<char>>) -> Option<Seq<PlayerMove>>
    decreases pieces.len(),
{
    if pieces.len() == 0 {
        Some(Seq::empty())
    } else {
        match (parse_all(pieces.drop_last()), spec_parse_move(pieces.last())) {
            (Some(ms), Some(m)) => Some(ms.push(m)),
            _ => None,
        }
    }
}

/// The moves of a text of moves: the `;` at both ends dropped, the rest cut at
/// each `;`, and every piece read as a move.
pub open spec fn spec_parse_moves(s: Seq<char>) -> Option<Seq<PlayerMove>> {
    parse_all(spec_split(trim_back(trim_front(s))))
}

proof fn lemma_trim_front(s: Seq<char>, a: int)
    requires
        0 <= a <= s.len(),
        forall|j: int| 0 <= j < a ==> s[j] == ';',
        a == s.len() || s[a] != ';',
    ensures
        trim_front(s) == s.subrange(a, s.len() as int),
    decreases a,
{
    if a > 0 {
        lemma_trim_front(s.drop_first(), a - 1);
        assert(s.drop_first().subrange(a - 1, s.len() - 1) =~= s.subrange(a, s.len() as int));
    } else {
        assert(s.subrange(0, s.len() as int) =~= s);
    }
}

proof fn lemma_trim_back(s: Seq<char>, b: int)
    requires
        0 <= b <= s.len(),
        forall|j: int| b <= j < s.len() ==> s[j] == ';',
        b == 0 || s[b - 1] != ';',
    ensures
        trim_back(s) == s.subrange(0, b),
    decreases s.len() - b,
{
    if b < s.len() {
        lemma_trim_back(s.drop_last(), b);
        assert(s.drop_last().subrange(0, b) =~= s.subrange(0, b));
    } else {
        assert(s.subrange(0, b) =~= s);
    }
}

/// Reads a game written by `export_moves`: the moves, or `None` when a piece of
/// the text names no move.
pub fn parse_moves(input: &str) -> (r: Option<Vec<PlayerMove>>)
    ensures
        match r {
            Some(v) => spec_parse_moves(input@) == Some(v@),
            None => spec_parse_moves(input@) is None,
        },
{
    let n = input.unicode_len();
    let mut a: usize = 0;
    while a < n && input.get_char(a) == ';'
        invariant
            a <= n,
            n == input@.len(),
            forall|j: int| 0 <= j < a ==> input@[j] == ';',
        decreases n - a,
    {
        a += 1;
    }
    proof {
        lemma_trim_front(input@, a as int);
    }
    let mut b: usize = n;
    while b > a && input.get_char(b - 1) == ';'
        invariant
            a <= b <= n,
            n == input@.len(),
            forall|j: int| b <= j < n ==> input@[j] == ';',
        decreases b,
    {
        b -= 1;
    }
    let ghost front = input@.subrange(a as int, n as int);
    let trimmed = input.substring_char(a, b);
    proof {
        if b == a {
            assert(front =~= front);
            assert forall|j: int| 0 <= j < front.len() implies front[j] == ';' by {
                assert(front[j] == input@[a + j]);
            }
            lemma_trim_back(front, 0);
        } else {
            lemma_trim_back(front, (b - a) as int);
        }
        assert(front.subrange(0, (b - a) as int) =~= trimmed@);
    }
    let ghost t = trimmed@;
    assert(trim_back(trim_front(input@)) == t);
    let len = b - a;
    let mut moves: Vec<PlayerMove> = Vec::new();
    let mut start: usize = 0;
    let mut i: usize = 0;
    while i < len
        invariant
            t == trimmed@,
            spec_parse_moves(input@) == parse_all(spec_split(t)),
            len == t.len(),
            start <= i <= len,
            forall|j: int| start <= j < i ==> t[j] != ';',
            start > 0 ==> t[start - 1] == ';',
            start > 0 ==> parse_all(spec_split(t.subrange(0, start - 1))) == Some(moves@),
            start == 0 ==> moves@ == Seq::<PlayerMove>::empty(),
        decreases len - i,
    {
        if trimmed.get_char(i) == ';' {
            let piece = trimmed.substring_char(start, i);
            proof {
                let u = t.subrange(0, i as int);
                lemma_last_semi(u);
                if start > 0 {
                    assert(last_semi(u) == start - 1) by {
                        lemma_last_semi_at(u, start - 1);
                    }
                    assert(u.subrange(0, start - 1) =~= t.subrange(0, start - 1));
                } else {
                    assert(last_semi(u) == -1) by {
                        lemma_no_semi(u);
                    }
                }
                assert(u.subrange(start as int, u.len() as int) =~= piece@);
            }
            match parse_player_move(piece) {
                Some(m) => {
                    proof {
                        let u = t.subrange(0, i as int);
                        let pieces = spec_split(u);
                        if start > 0 {
                            assert(pieces == spec_split(t.subrange(0, start - 1)) + seq![piece@]);
                            assert(pieces.drop_last() =~= spec_split(t.subrange(0, start - 1)));
                        } else {
                            assert(pieces == seq![u]);
                            assert(u =~= piece@);
                            assert(pieces.drop_last() =~= Seq::<Seq<char>>::empty());
                        }
                        assert(pieces.last() == piece@);
                        assert(parse_all(pieces.drop_last()) == Some(moves@));
                        assert(spec_parse_move(pieces.last()) == Some(m));
                        assert(pieces.len() > 0);
                        assert(parse_all(pieces) == Some(moves@.push(m)));
                    }
                    moves.push(m);
                },
                None => {
                    proof {
                        let u = t.subrange(0, i as int);
                        let pieces = spec_split(u);
                        if start > 0 {
                            assert(pieces == spec_split(t.subrange(0, start - 1)) + seq![piece@]);
                        } else {
                            assert(pieces == seq![u]);
                            assert(u =~= piece@);
                        }
                        assert(pieces.last() == piece@);
                        assert(parse_all(pieces) is None);
                        lemma_parse_prefix_fails(t, i as int);
                    }
                    return None;
                },
            }
            start = i + 1;
        }
        i += 1;
    }
    let piece = trimmed.substring_char(start, len);
    proof {
        lemma_last_semi(t);
        if start > 0 {
            assert(last_semi(t) == start - 1) by {
                lemma_last_semi_at(t, start - 1);
            }
        } else {
            assert(last_semi(t) == -1) by {
                lemma_no_semi(t);
            }
            assert(t.subrange(0, len as int) =~= t);
        }
    }
    match parse_player_move(piece) {
        Some(m) => {
            proof {
                let pieces = spec_split(t);
                if start > 0 {
                    assert(pieces.drop_last() =~= spec_split(t.subrange(0, start - 1)));
                } else {
                    assert(pieces == seq![t]);
                    assert(pieces.drop_last() =~= Seq::<Seq<char>>::empty());
                }
                assert(pieces.last() == piece@);
                assert(parse_all(pieces.drop_last()) == Some(moves@));
                assert(spec_parse_move(pieces.last()) == Some(m));
                assert(pieces.len() > 0);
                assert(parse_all(pieces) == Some(moves@.push(m)));
            }
            moves.push(m);
            Some(moves)
        },
        None => {
            proof {
                let pieces = spec_split(t);
                assert(pieces.last() == piece@);
            }
            None
        },
    }
}

proof fn lemma_last_semi_at(s: Seq<char>, k: int)
    requires
        0 <= k < s.len(),
        s[k] == ';',
        forall|j: int| k < j < s.len() ==> s[j] != ';',
    ensures
        last_semi(s) == k,
    decreases s.len(),
{
    if s.len() - 1 != k {
        lemma_last_semi_at(s.drop_last(), k);
    }
}

proof fn lemma_no_semi(s: Seq<char>)
    requires
        forall|j: int| 0 <= j < s.len() ==> s[j] != ';',
    ensures
        last_semi(s) == -1,
    decreases s.len(),
{
    if s.len() > 0 {
        lemma_no_semi(s.drop_last());
    }
}

/// A piece that names no move spoils every longer text that ends with it.
proof fn lemma_parse_prefix_fails(t: Seq<char>, i: int)
    requires
        0 <= i < t.len(),
        t[i] == ';',
        parse_all(spec_split(t.subrange(0, i))) is None,
    ensures
        parse_all(spec_split(t)) is None,
    decreases t.len(),
{
    lemma_last_semi(t);
    let k = last_semi(t);
    if k == i {
        assert(t.subrange(0, k) =~= t.subrange(0, i));
        let pieces = spec_split(t);
        assert(pieces.drop_last() =~= spec_split(t.subrange(0, i)));
    } else {
        assert(k > i);
        let u = t.subrange(0, k);
        assert(u.subrange(0, i) =~= t.subrange(0, i));
        lemma_parse_prefix_fails(u, i);
        let pieces = spec_split(t);
        assert(pieces.drop_last() =~= spec_split(u));
    }
}

proof fn lemma_decimal_no_semi(n: nat)
    ensures
        spec_decimal(n).len() > 0,
        forall|j: int| 0 <= j < spec_decimal(n).len() ==> spec_decimal(n)[j] != ';',
    decreases n,
{
    if n >= 10 {
        lemma_decimal_no_semi(n / 10);
        let a = spec_decimal(n / 10);
        assert forall|j: int| 0 <= j < spec_decimal(n).len() implies spec_decimal(n)[j] != ';' by {
            if j < a.len() {
                assert(spec_decimal(n)[j] == a[j]);
            }
        }
    }
}

/// The text of a move is not empty and holds no `;`.
proof fn lemma_notation_no_semi(m: PlayerMove)
    ensures
        spec_move_notation(m).len() > 0,
        forall|j: int| 0 <= j < spec_move_notation(m).len() ==> spec_move_notation(m)[j] != ';',
{
    match m {
        PlayerMove::MovePiece(_) => {},
        PlayerMove::PlaceWall { orientation, position } => {
            lemma_decimal_no_semi(position.x as nat);
            lemma_decimal_no_semi(position.y as nat);
            let h = seq![if orientation == WallOrientation::Horizontal { 'h' } else { 'v' }];
            let a = spec_decimal(position.x as nat);
            let b = spec_decimal(position.y as nat);
            assert forall|j: int| 0 <= j < spec_move_notation(m).len() implies spec_move_notation(m)[j] != ';' by {
                if j == 0 {
                } else if j < 1 + a.len() {
                    assert(spec_move_notation(m)[j] == a[j - 1]);
                } else {
                    assert(spec_move_notation(m)[j] == b[j - 1 - a.len()]);
                }
            }
        },
    }
}

/// The texts of the moves, one piece each.
pub open spec fn notations(moves: Seq<PlayerMove>) -> Seq<Seq<char>> {
    Seq::new(moves.len(), |i: int| spec_move_notation(moves[i]))
}

proof fn lemma_export_ends(moves: Seq<PlayerMove>)
    requires
        moves.len() > 0,
    ensures
        spec_export(moves).len() > 0,
        spec_export(moves).last() == ';',
        spec_export(moves)[0] != ';',
        spec_export(moves).drop_last().len() > 0,
        spec_export(moves).drop_last().last() != ';',
    decreases moves.len(),
{
    lemma_notation_no_semi(moves.last());
    if moves.len() > 1 {
        lemma_export_ends(moves.drop_last());
    } else {
        assert(spec_export(moves.drop_last()) =~= Seq::<char>::empty());
    }
    let n = spec_move_notation(moves.last());
    assert(spec_export(moves).drop_last() =~= spec_export(moves.drop_last()) + n);
}

proof fn lemma_split_export(moves: Seq<PlayerMove>)
    requires
        moves.len() > 0,
    ensures
        spec_split(spec_export(moves).drop_last()) == notations(moves),
    decreases moves.len(),
{
    let prefix = spec_export(moves.drop_last());
    let n = spec_move_notation(moves.last());
    let t = spec_export(moves).drop_last();
    lemma_notation_no_semi(moves.last());
    assert(t =~= prefix + n);
    if moves.len() == 1 {
        assert(prefix =~= Seq::<char>::empty());
        assert(t =~= n);
        assert forall|j: int| 0 <= j < t.len() implies t[j] != ';' by {}
        lemma_no_semi(t);
        assert(notations(moves) =~= seq![n]);
    } else {
        lemma_export_ends(moves.drop_last());
        let k = prefix.len() - 1;
        assert(t[k] == ';');
        assert forall|j: int| k < j < t.len() implies t[j] != ';' by {
            assert(t[j] == n[j - prefix.len()]);
        }
        lemma_last_semi_at(t, k);
        lemma_last_semi(t);
        assert(t.subrange(0, k) =~= prefix.drop_last());
        assert(t.subrange(k + 1, t.len() as int) =~= n);
        lemma_split_export(moves.drop_last());
        assert(notations(moves) =~= notations(moves.drop_last()) + seq![n]);
    }
}

proof fn lemma_parse_all_notations(moves: Seq<PlayerMove>)
    requires
        forall|i: int| 0 <= i < moves.len() ==> writable(#[trigger] moves[i]),
    ensures
        parse_all(notations(moves)) == Some(moves),
    decreases moves.len(),
{
    if moves.len() > 0 {
        lemma_parse_all_notations(moves.drop_last());
        assert(notations(moves).drop_last() =~= notations(moves.drop_last()));
        lemma_parse_notation(moves.last());
        assert(moves.drop_last().push(moves.last()) =~= moves);
    } else {
        assert(notations(moves) =~= Seq::<Seq<char>>::empty());
    }
}

/// A game written by `export_moves` reads back to the same moves, when it has
/// at least one move and every wall has single-digit coordinates.
pub proof fn lemma_import_export(moves: Seq<PlayerMove>)
    requires
        moves.len() > 0,
        forall|i: int| 0 <= i < moves.len() ==> writable(#[trigger] moves[i]),
    ensures
        spec_parse_moves(spec_export(moves)) == Some(moves),
{
    let e = spec_export(moves);
    lemma_export_ends(moves);
    lemma_trim_front(e, 0);
    assert(e.subrange(0, e.len() as int) =~= e);
    lemma_trim_back(e, e.len() - 1);
    assert(e.subrange(0, e.len() - 1) =~= e.drop_last());
    lemma_split_export(moves);
    lemma_parse_all_notations(moves);
}

} // verus!

//! The catalogue of saved games.
//!
//! A saved game lies in a file whose name tells the catalogue it belongs
//! to, the version of the format, the name of the game and the time at which
//! it was saved: `prefix_version_name_time.yaml`, with the time written as
//! year, month, day, hour, minute and second. The catalogue reads and writes
//! no file itself: it is given the names of the files that exist, and it says
//! under which name a game is to be written or read.

use vstd::prelude::*;
use vstd::slice::{slice_subrange, slice_to_vec};

verus! {

/// The version of the format in which games are saved.
pub const VERSION: u8 = 1;

/// The byte that parts the fields of a file name.
pub const SEPARATOR: u8 = 95;

/// What is known of a saved game.
#[derive(Clone, Eq, PartialEq, Debug)]
pub struct SavedGameInfo {
    /// The name of the game, as bytes.
    pub name: Vec<u8>,
    /// The time at which the game was saved, in seconds since the beginning
    /// of 1970.
    pub timestamp: i64,
    pub version: u8,
}

pub struct InfoView {
    pub name: Seq<u8>,
    pub timestamp: i64,
    pub version: u8,
}

impl View for SavedGameInfo {
    type V = InfoView;

    open spec fn view(&self) -> InfoView {
        InfoView { name: self.name@, timestamp: self.timestamp, version: self.version }
    }
}

/// The time that a text of the form year, month, day, hour, minute, second
/// and `.yaml` gives, in seconds since the beginning of 1970, if chrono can
/// read the text so.
pub uninterp spec fn stamp_of(text: Seq<u8>) -> Option<i64>;

/// The text that chrono writes for a time given in seconds since the
/// beginning of 1970: year, month, day, hour, minute and second. A time
/// outside of what chrono can hold has none.
pub uninterp spec fn stamp_text(secs: i64) -> Option<Seq<u8>>;

/// `chrono::NaiveDateTime::parse_from_str` with the format
/// `%Y%m%d%H%M%S.yaml` on a text, taken as a time of the zone UTC. What comes
/// of it depends on the text alone and gets a name; a text that is no UTF-8
/// or that chrono does not accept gives nothing.
#[verifier::external_body]
fn parse_stamp(text: &[u8]) -> (secs: Option<i64>)
    ensures
        secs == stamp_of(text@),
{
    let text = std::str::from_utf8(text).ok()?;
    let time = chrono::NaiveDateTime::parse_from_str(text, "%Y%m%d%H%M%S.yaml").ok()?;
    Some(time.and_utc().timestamp())
}

/// `chrono::DateTime::format` with the format `%Y%m%d%H%M%S` on the time
/// that `chrono::DateTime::from_timestamp` makes of a number of seconds. What
/// comes of it depends on the number alone and gets a name; a number that
/// chrono cannot hold gives nothing.
#[verifier::external_body]
fn format_stamp(secs: i64) -> (text: Option<Vec<u8>>)
    ensures
        match text {
            Some(bytes) => stamp_text(secs) == Some(bytes@),
            None => stamp_text(secs) is None,
        },
{
    let time = chrono::DateTime::from_timestamp(secs, 0)?;
    Some(time.format("%Y%m%d%H%M%S").to_string().into_bytes())
}

/// The places of the separators among the first `upto` bytes of a text.
pub open spec fn marks(text: Seq<u8>, upto: int) -> Seq<int>
    decreases upto,
{
    if upto <= 0 {
        Seq::empty()
    } else if text[upto - 1] == SEPARATOR {
        marks(text, upto - 1).push(upto - 1)
    } else {
        marks(text, upto - 1)
    }
}

/// Every byte is a decimal digit.
pub open spec fn all_digits(text: Seq<u8>) -> bool {
    forall|i: int| 0 <= i < text.len() ==> 48 <= #[trigger] text[i] <= 57
}

/// The number that decimal digits write.
pub open spec fn digits_value(text: Seq<u8>) -> int
    decreases text.len(),
{
    if text.len() == 0 {
        0
    } else {
        digits_value(text.drop_last()) * 10 + (text.last() - 48)
    }
}

/// The number up to 255 that a text writes: one decimal digit or more, after
/// a plus sign or without one.
pub open spec fn small_number(text: Seq<u8>) -> Option<u8> {
    let digits = if text.len() > 0 && text[0] == 43 {
        text.skip(1)
    } else {
        text
    };
    if digits.len() > 0 && all_digits(digits) && digits_value(digits) <= 255 {
        Some(digits_value(digits) as u8)
    } else {
        None
    }
}

/// The name of the game and the text of the time in the name of a file, if
/// it is the name of a saved game of the catalogue with this prefix: the
/// name has four fields with separators between them; the first is the
/// prefix; the second writes the version of the format; the third is the
/// name of the game; the fourth is the text of the time.
pub open spec fn fields(file_name: Seq<u8>, prefix: Seq<u8>) -> Option<(Seq<u8>, Seq<u8>)> {
    let at = marks(file_name, file_name.len() as int);
    if at.len() != 3 {
        None
    } else {
        let head = file_name.subrange(0, at[0]);
        let version = small_number(file_name.subrange(at[0] + 1, at[1]));
        if head == prefix && version == Some(VERSION) {
            Some(
                (
                    file_name.subrange(at[1] + 1, at[2]),
                    file_name.subrange(at[2] + 1, file_name.len() as int),
                ),
            )
        } else {
            None
        }
    }
}

/// What the name of a file says of the game that was saved in it, if it is
/// the name of a saved game of the catalogue with this prefix and the text
/// of its time can be read.
pub open spec fn parsed(file_name: Seq<u8>, prefix: Seq<u8>) -> Option<InfoView> {
    match fields(file_name, prefix) {
        Some((name, time)) => match stamp_of(time) {
            Some(timestamp) => Some(InfoView { name, timestamp, version: VERSION }),
            None => None,
        },
        None => None,
    }
}

/// The separators are found in the text, in rising order.
pub proof fn lemma_marks(text: Seq<u8>, upto: int)
    requires
        0 <= upto <= text.len(),
    ensures
        marks(text, upto).len() <= upto,
        forall|k: int|
            0 <= k < marks(text, upto).len() ==> 0 <= #[trigger] marks(text, upto)[k] < upto
                && text[marks(text, upto)[k]] == SEPARATOR,
        forall|j: int, k: int|
            0 <= j < k < marks(text, upto).len() ==> marks(text, upto)[j] < marks(text, upto)[k],
    decreases upto,
{
    if upto > 0 {
        lemma_marks(text, upto - 1);
    }
}

/// Whether two texts are the same.
pub fn same_bytes(a: &[u8], b: &[u8]) -> (same: bool)
    ensures
        same == (a@ == b@),
{
    if a.len() != b.len() {
        return false;
    }
    let n = a.len();
    let mut i: usize = 0;
    while i < n
        invariant
            n == a@.len(),
            n == b@.len(),
            i <= n,
            forall|j: int| 0 <= j < i ==> a@[j] == b@[j],
        decreases n - i,
    {
        if a[i] != b[i] {
            return false;
        }
        i += 1;
    }
    assert(a@ =~= b@);
    true
}

/// Reads a number up to 255 as the standard library reads a `u8`.
pub fn parse_small_number(text: &[u8]) -> (number: Option<u8>)
    ensures
        number == small_number(text@),
{
    let n = text.len();
    let from: usize = if n > 0 && text[0] == 43 {
        1
    } else {
        0
    };
    if from == n {
        return None;
    }
    let ghost digits = text@.skip(from as int);
    proof {
        if from == 0 {
            assert(digits =~= text@);
        }
    }
    let mut value: u32 = 0;
    let mut i: usize = from;
    while i < n
        invariant
            n == text@.len(),
            from <= i <= n,
            digits == text@.skip(from as int),
            digits == if text@.len() > 0 && text@[0] == 43 {
                text@.skip(1)
            } else {
                text@
            },
            all_digits(digits.take(i - from)),
            value == digits_value(digits.take(i - from)),
            value <= 255,
        decreases n - i,
    {
        let byte = text[i];
        let ghost before = digits.take(i - from);
        let ghost after = digits.take(i + 1 - from);
        proof {
            assert(after.drop_last() =~= before);
            assert(after.last() == byte);
        }
        if byte < 48 || byte > 57 {
            proof {
                assert(digits[i - from] == byte);
            }
            return None;
        }
        let next: u32 = value * 10 + (byte - 48) as u32;
        if next > 255 {
            proof {
                if all_digits(digits) {
                    lemma_digits_grow(digits, i + 1 - from);
                }
            }
            return None;
        }
        value = next;
        i += 1;
    }
    proof {
        assert(digits.take(n - from) =~= digits);
    }
    Some(value as u8)
}

/// The number that digits write does not get smaller with more digits.
proof fn lemma_digits_grow(text: Seq<u8>, upto: int)
    requires
        0 <= upto <= text.len(),
        all_digits(text),
    ensures
        digits_value(text.take(upto)) <= digits_value(text),
    decreases text.len() - upto,
{
    if upto < text.len() {
        lemma_digits_grow(text, upto + 1);
        assert(text.take(upto + 1).drop_last() =~= text.take(upto));
        assert(text.take(upto + 1).last() == text[upto]);
        lemma_digits_positive(text.take(upto));
    } else {
        assert(text.take(upto) =~= text);
    }
}

proof fn lemma_digits_positive(text: Seq<u8>)
    requires
        all_digits(text),
    ensures
        digits_value(text) >= 0,
    decreases text.len(),
{
    if text.len() > 0 {
        lemma_digits_positive(text.drop_last());
    }
}

/// Takes the name of a file apart: if it is the name of a saved game of the
/// catalogue with this prefix, the name of the game and the text of its
/// time are handed out.
pub fn split_file_name(file_name: &[u8], prefix: &[u8]) -> (parts: Option<(Vec<u8>, Vec<u8>)>)
    ensures
        match parts {
            Some((name, time)) => fields(file_name@, prefix@) == Some((name@, time@)),
            None => fields(file_name@, prefix@) is None,
        },
{
    let n = file_name.len();
    let mut at: Vec<usize> = Vec::new();
    let mut i: usize = 0;
    while i < n
        invariant
            n == file_name@.len(),
            i <= n,
            at@.len() == marks(file_name@, i as int).len(),
            forall|k: int| 0 <= k < at@.len() ==> at@[k] == marks(file_name@, i as int)[k],
        decreases n - i,
    {
        if file_name[i] == SEPARATOR {
            at.push(i);
        }
        i += 1;
    }
    proof {
        lemma_marks(file_name@, n as int);
    }
    if at.len() != 3 {
        return None;
    }
    let ghost places = marks(file_name@, n as int);
    assert(places[0] < places[1] < places[2]);
    let head = slice_subrange(file_name, 0, at[0]);
    if !same_bytes(head, prefix) {
        return None;
    }
    let version = parse_small_number(slice_subrange(file_name, at[0] + 1, at[1]));
    if version != Some(VERSION) {
        return None;
    }
    let name = slice_to_vec(slice_subrange(file_name, at[1] + 1, at[2]));
    let time = slice_to_vec(slice_subrange(file_name, at[2] + 1, n));
    Some((name, time))
}

/// Reads the name of a file as that of a saved game of the catalogue with
/// this prefix.
pub fn parse_file_name(file_name: &[u8], prefix: &[u8]) -> (info: Option<SavedGameInfo>)
    ensures
        match info {
            Some(game) => parsed(file_name@, prefix@) == Some(game@),
            None => parsed(file_name@, prefix@) is None,
        },
{
    match split_file_name(file_name, prefix) {
        Some((name, time)) => match parse_stamp(time.as_slice()) {
            Some(timestamp) => Some(SavedGameInfo { name, timestamp, version: VERSION }),
            None => None,
        },
        None => None,
    }
}

/// A number up to 255 in decimal digits, without zeros in front.
pub open spec fn small_number_text(number: u8) -> Seq<u8> {
    if number < 10 {
        seq![(48 + number) as u8]
    } else if number < 100 {
        seq![(48 + number / 10) as u8, (48 + number % 10) as u8]
    } else {
        seq![(48 + number / 100) as u8, (48 + (number / 10) % 10) as u8, (48 + number % 10) as u8]
    }
}

/// The bytes of `.yaml`.
pub open spec fn ending() -> Seq<u8> {
    seq![46u8, 121u8, 97u8, 109u8, 108u8]
}

/// The name of a file: the prefix, the version, the name of the game and
/// the text of the time, with separators between them, and `.yaml`.
pub open spec fn composed(prefix: Seq<u8>, version: u8, name: Seq<u8>, time: Seq<u8>) -> Seq<u8> {
    prefix + seq![SEPARATOR] + small_number_text(version) + seq![SEPARATOR] + name + seq![
        SEPARATOR,
    ] + time + ending()
}

/// The name of the file in which the catalogue with this prefix keeps a
/// game, if the time of the game can be written.
pub open spec fn named(prefix: Seq<u8>, game: InfoView) -> Option<Seq<u8>> {
    match stamp_text(game.timestamp) {
        Some(time) => Some(composed(prefix, game.version, game.name, time)),
        None => None,
    }
}

/// Writes a number up to 255 in decimal digits.
pub fn write_small_number(number: u8) -> (text: Vec<u8>)
    ensures
        text@ == small_number_text(number),
{
    let mut text: Vec<u8> = Vec::new();
    if number >= 100 {
        text.push(48 + number / 100);
    }
    if number >= 10 {
        text.push(48 + (number / 10) % 10);
    }
    text.push(48 + number % 10);
    assert(text@ =~= small_number_text(number));
    text
}

/// Puts the name of a file together.
pub fn compose_file_name(prefix: &[u8], version: u8, name: &[u8], time: &[u8]) -> (file: Vec<u8>)
    ensures
        file@ == composed(prefix@, version, name@, time@),
{
    let mut file = slice_to_vec(prefix);
    file.push(SEPARATOR);
    let mut digits = write_small_number(version);
    file.append(&mut digits);
    file.push(SEPARATOR);
    let mut title = slice_to_vec(name);
    file.append(&mut title);
    file.push(SEPARATOR);
    let mut stamp = slice_to_vec(time);
    file.append(&mut stamp);
    file.push(46);
    file.push(121);
    file.push(97);
    file.push(109);
    file.push(108);
    assert(file@ =~= composed(prefix@, version, name@, time@));
    file
}

/// The name of the file in which the catalogue with this prefix keeps a
/// game.
pub fn file_name(prefix: &[u8], game: &SavedGameInfo) -> (name: Option<Vec<u8>>)
    ensures
        match name {
            Some(bytes) => named(prefix@, game@) == Some(bytes@),
            None => named(prefix@, game@) is None,
        },
{
    match format_stamp(game.timestamp) {
        Some(time) => Some(
            compose_file_name(prefix, game.version, game.name.as_slice(), time.as_slice()),
        ),
        None => None,
    }
}

/// The games that a list of file names tells of, in the order of the list.
pub open spec fn told(file_names: Seq<Vec<u8>>, prefix: Seq<u8>, upto: int) -> Seq<InfoView>
    decreases upto,
{
    if upto <= 0 {
        Seq::empty()
    } else {
        match parsed(file_names[upto - 1]@, prefix) {
            Some(game) => told(file_names, prefix, upto - 1).push(game),
            None => told(file_names, prefix, upto - 1),
        }
    }
}

/// The views of a list of games.
pub open spec fn views(games: Seq<SavedGameInfo>) -> Seq<InfoView> {
    Seq::new(games.len(), |k: int| games[k]@)
}

/// The list of the saved games of one directory: those whose files bear
/// the prefix of the catalogue and the version of the format.
#[derive(Clone, Eq, PartialEq, Debug)]
pub struct SavedGamesCatalog {
    version: u8,
    prefix: Vec<u8>,
    saved_games: Vec<SavedGameInfo>,
}

pub struct CatalogView {
    pub prefix: Seq<u8>,
    pub games: Seq<InfoView>,
}

impl View for SavedGamesCatalog {
    type V = CatalogView;

    closed spec fn view(&self) -> CatalogView {
        CatalogView { prefix: self.prefix@, games: views(self.saved_games@) }
    }
}

impl SavedGameInfo {
    /// Whether two games have the same name, time and version.
    pub fn same(&self, other: &SavedGameInfo) -> (same: bool)
        ensures
            same == (self@ == other@),
    {
        self.timestamp == other.timestamp && self.version == other.version && same_bytes(
            self.name.as_slice(),
            other.name.as_slice(),
        )
    }
}

impl SavedGamesCatalog {
    /// The format of the catalogue is the current one.
    pub closed spec fn wf(&self) -> bool {
        self.version == VERSION
    }

    /// The catalogue of a directory, of the names of the files that lie in
    /// it. A file whose name is not that of a saved game of this catalogue
    /// is passed over.
    pub fn new(prefix: &[u8], file_names: &Vec<Vec<u8>>) -> (catalog: Self)
        ensures
            catalog.wf(),
            catalog@.prefix == prefix@,
            catalog@.games == told(file_names@, prefix@, file_names@.len() as int),
    {
        let mut saved_games: Vec<SavedGameInfo> = Vec::new();
        let n = file_names.len();
        let mut i: usize = 0;
        while i < n
            invariant
                n == file_names@.len(),
                i <= n,
                views(saved_games@) == told(file_names@, prefix@, i as int),
            decreases n - i,
        {
            let ghost before = saved_games@;
            match parse_file_name(file_names[i].as_slice(), prefix) {
                Some(game) => {
                    saved_games.push(game);
                    assert(views(saved_games@) =~= views(before).push(game@));
                },
                None => {},
            }
            i += 1;
        }
        SavedGamesCatalog { version: VERSION, prefix: slice_to_vec(prefix), saved_games }
    }

    pub fn list_saved_games(&self) -> (games: &Vec<SavedGameInfo>)
        ensures
            views(games@) == self@.games,
    {
        &self.saved_games
    }

    /// Whether a game is on the list.
    pub fn knows(&self, game: &SavedGameInfo) -> (known: bool)
        ensures
            known == self@.games.contains(game@),
    {
        let n = self.saved_games.len();
        let mut i: usize = 0;
        while i < n
            invariant
                n == self.saved_games@.len(),
                i <= n,
                forall|k: int| 0 <= k < i ==> self.saved_games@[k]@ != game@,
            decreases n - i,
        {
            if self.saved_games[i].same(game) {
                assert(views(self.saved_games@)[i as int] == game@);
                return true;
            }
            i += 1;
        }
        assert forall|k: int| 0 <= k < self@.games.len() implies self@.games[k] != game@ by {
            assert(self@.games[k] == self.saved_games@[k]@);
        }
        false
    }

    /// Puts a game with the given name, saved at the given time, at the end
    /// of the list, and says under which file name it is to be written.
    /// Nothing happens where the time cannot be written.
    pub fn save(&mut self, name: &[u8], now: i64) -> (saved: Option<(SavedGameInfo, Vec<u8>)>)
        requires
            old(self).wf(),
        ensures
            final(self).wf(),
            final(self)@.prefix == old(self)@.prefix,
            match saved {
                Some((game, file)) => {
                    &&& game@ == (InfoView { name: name@, timestamp: now, version: VERSION })
                    &&& named(old(self)@.prefix, game@) == Some(file@)
                    &&& final(self)@.games == old(self)@.games.push(game@)
                },
                None => named(
                    old(self)@.prefix,
                    InfoView { name: name@, timestamp: now, version: VERSION },
                ) is None && final(self)@.games == old(self)@.games,
            },
    {
        let game = SavedGameInfo { name: slice_to_vec(name), timestamp: now, version: self.version };
        match file_name(self.prefix.as_slice(), &game) {
            Some(file) => {
                let ghost before = self.saved_games@;
                let listed = SavedGameInfo {
                    name: slice_to_vec(name),
                    timestamp: now,
                    version: self.version,
                };
                self.saved_games.push(listed);
                assert(views(self.saved_games@) =~= views(before).push(game@));
                Some((game, file))
            },
            None => None,
        }
    }

    /// The name of the file in which a game of the list lies. A game that
    /// is not on the list has none.
    pub fn load(&self, game: &SavedGameInfo) -> (file: Option<Vec<u8>>)
        ensures
            match file {
                Some(bytes) => self@.games.contains(game@) && named(self@.prefix, game@) == Some(
                    bytes@,
                ),
                None => !self@.games.contains(game@) || named(self@.prefix, game@) is None,
            },
    {
        if !self.knows(game) {
            return None;
        }
        file_name(self.prefix.as_slice(), game)
    }
}

} // verus!

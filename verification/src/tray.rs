use vstd::prelude::*;

use crate::model::{FileEntry, FileEntryView, Mount, Snapshot};
use crate::text::{chars_between, chars_of, decimal, decimal_text, digit_char, digit_of, join, string_of};

verus! {

broadcast use vstd::string::group_string_axioms;

// ---------------------------------------------------------------------
// Byte counts as the panel shows them
// ---------------------------------------------------------------------

/// Two to the `e`.
pub open spec fn two_to(e: nat) -> nat
    decreases e,
{
    if e == 0 {
        1
    } else {
        2 * two_to((e - 1) as nat)
    }
}

/// `x / d` rounded to the nearest whole number, ties to the even one.
pub open spec fn round_half_even(x: nat, d: nat) -> nat
    recommends
        d > 0,
{
    let q = x / d;
    let r = x % d;
    if 2 * r < d {
        q
    } else if 2 * r > d {
        q + 1
    } else if q % 2 == 0 {
        q
    } else {
        q + 1
    }
}

/// How many low bits of `b` a double cannot hold: a double has 53 bits
/// of significand.
pub open spec fn f64_exponent(b: nat) -> nat
    decreases b,
{
    if b < 0x20_0000_0000_0000 {
        0
    } else {
        1 + f64_exponent(b / 2)
    }
}

/// The double nearest to `b`, ties to the even significand: what
/// `b as f64` yields.
pub open spec fn nearest_f64(b: nat) -> nat {
    let unit = two_to(f64_exponent(b));
    round_half_even(b, unit) * unit
}

/// Bytes in a mebibyte.
pub open spec fn mib() -> nat {
    0x10_0000
}

/// Bytes in a gibibyte.
pub open spec fn gib() -> nat {
    0x4000_0000
}

/// Bytes in a tebibyte.
pub open spec fn tib() -> nat {
    0x100_0000_0000
}

/// A number of hundredths written with two decimals, as `{:.2}` writes it.
pub open spec fn two_decimals(hundredths: nat) -> Seq<char> {
    decimal(hundredths / 100) + seq!['.', digit_char((hundredths / 10) % 10), digit_char(hundredths % 10)]
}

/// A byte count in the largest binary unit it reaches: tebibytes and
/// gibibytes with two decimals, mebibytes with none, bytes as they are.
/// The decimals are those of the floating-point quotient that the count,
/// taken as a double, gives, rounded to nearest with ties to even.
pub open spec fn bytes_text(bytes: nat) -> Seq<char> {
    if bytes >= tib() {
        two_decimals(round_half_even(nearest_f64(bytes) * 100, tib())) + " TiB"@
    } else if bytes >= gib() {
        two_decimals(round_half_even(bytes * 100, gib())) + " GiB"@
    } else if bytes >= mib() {
        decimal(round_half_even(bytes, mib())) + " MiB"@
    } else {
        decimal(bytes) + " B"@
    }
}

/// `x / d` rounded to nearest, ties to even.
fn round_to_even(x: u128, d: u128) -> (r: u128)
    requires
        d > 0,
        x < 0x8000_0000_0000_0000_0000_0000_0000_0000,
    ensures
        r == round_half_even(x as nat, d as nat),
        r <= x / d + 1,
{
    let q = x / d;
    let r = x % d;
    assert(q <= x) by (nonlinear_arith)
        requires
            q == x / d,
            d > 0,
    ;
    if r < d - r {
        q
    } else if r > d - r {
        q + 1
    } else if q % 2 == 0 {
        q
    } else {
        q + 1
    }
}

/// The double nearest to `b`, as a whole number.
fn nearest_double(b: u64) -> (f: u128)
    ensures
        f == nearest_f64(b as nat),
        f <= 0x1_0000_0000_0000_1000,
{
    let mut x: u64 = b;
    let mut unit: u128 = 1;
    let ghost mut e: nat = 0;
    while x >= 0x20_0000_0000_0000
        invariant
            x == b as nat / unit as nat,
            unit == two_to(e),
            1 <= unit <= 0x1000,
            f64_exponent(b as nat) == e + f64_exponent(x as nat),
        decreases x,
    {
        proof {
            vstd::arithmetic::div_mod::lemma_div_denominator(b as int, unit as int, 2);
            assert(unit * 0x20_0000_0000_0000 <= unit * x) by (nonlinear_arith)
                requires
                    x >= 0x20_0000_0000_0000,
                    unit >= 1,
            ;
            assert(unit * x <= b) by (nonlinear_arith)
                requires
                    x == b as nat / unit as nat,
                    unit >= 1,
            ;
            assert(unit < 0x800);
        }
        x = x / 2;
        unit = unit * 2;
        proof {
            e = e + 1;
        }
    }
    let q = round_to_even(b as u128, unit);
    assert(q * unit <= 0x1_0000_0000_0000_1000) by (nonlinear_arith)
        requires
            q <= b as nat / unit as nat + 1,
            1 <= unit <= 0x1000,
            b <= 0xffff_ffff_ffff_ffff,
    ;
    q * unit
}

/// A count of hundredths with two decimals.
fn two_decimals_text(hundredths: u64) -> (s: String)
    ensures
        s@ == two_decimals(hundredths as nat),
{
    let whole = decimal_text(hundredths / 100);
    let mut tail: Vec<char> = Vec::new();
    tail.push('.');
    tail.push(digit_of((hundredths / 10) % 10));
    tail.push(digit_of(hundredths % 10));
    let tail = string_of(&tail);
    let s = join(whole, tail.as_str());
    assert(tail@ =~= seq!['.', digit_char(((hundredths / 10) % 10) as nat), digit_char((hundredths % 10) as nat)]);
    s
}

/// Formats a byte count for the menu, as in "931.51 GiB".
pub fn format_bytes(bytes: u64) -> (s: String)
    ensures
        s@ == bytes_text(bytes as nat),
{
    if bytes >= 0x100_0000_0000 {
        let f = nearest_double(bytes);
        let h = round_to_even(f * 100, 0x100_0000_0000);
        assert(h <= 0xffff_ffff_ffff) by (nonlinear_arith)
            requires
                h == round_half_even((f * 100) as nat, 0x100_0000_0000),
                f <= 0x1_0000_0000_0000_1000,
        ;
        join(two_decimals_text(h as u64), " TiB")
    } else if bytes >= 0x4000_0000 {
        let h = round_to_even(bytes as u128 * 100, 0x4000_0000);
        assert(h <= 0xffff_ffff) by (nonlinear_arith)
            requires
                h == round_half_even((bytes * 100) as nat, 0x4000_0000),
                bytes < 0x100_0000_0000,
        ;
        join(two_decimals_text(h as u64), " GiB")
    } else if bytes >= 0x10_0000 {
        let m = round_to_even(bytes as u128, 0x10_0000);
        assert(m <= 0xffff) by (nonlinear_arith)
            requires
                m == round_half_even(bytes as nat, 0x10_0000),
                bytes < 0x4000_0000,
        ;
        join(decimal_text(m as u64), " MiB")
    } else {
        join(decimal_text(bytes), " B")
    }
}


// ---------------------------------------------------------------------
// Times
// ---------------------------------------------------------------------

/// The part of `s` before its first `c`; all of `s` if it has none.
pub open spec fn before_first(s: Seq<char>, c: char) -> Seq<char>
    decreases s.len(),
{
    if s.len() == 0 {
        s
    } else if s[0] == c {
        Seq::empty()
    } else {
        seq![s[0]] + before_first(s.drop_first(), c)
    }
}

/// The part of `s` after its first `c`, if it has one.
pub open spec fn after_first(s: Seq<char>, c: char) -> Option<Seq<char>>
    decreases s.len(),
{
    if s.len() == 0 {
        None
    } else if s[0] == c {
        Some(s.drop_first())
    } else {
        after_first(s.drop_first(), c)
    }
}

/// The clock time of an RFC 3339 timestamp: what lies between the `T` and
/// the next `T` or `.`; the whole text if it has no `T`.
pub open spec fn short_time_text(s: Seq<char>) -> Seq<char> {
    match after_first(s, 'T') {
        Some(rest) => before_first(before_first(rest, 'T'), '.'),
        None => s,
    }
}

proof fn lemma_first_occurrence(s: Seq<char>, c: char, k: int)
    requires
        0 <= k <= s.len(),
        forall|j: int| 0 <= j < k ==> s[j] != c,
        k < s.len() ==> s[k] == c,
    ensures
        before_first(s, c) == s.take(k),
        after_first(s, c) == (if k < s.len() {
            Some(s.skip(k + 1))
        } else {
            None::<Seq<char>>
        }),
    decreases s.len(),
{
    if s.len() > 0 && k > 0 {
        let t = s.drop_first();
        assert forall|j: int| 0 <= j < k - 1 implies t[j] != c by {
            assert(t[j] == s[j + 1]);
        }
        lemma_first_occurrence(t, c, k - 1);
        assert(seq![s[0]] + t.take(k - 1) =~= s.take(k));
        if k < s.len() {
            assert(t.skip(k) =~= s.skip(k + 1));
        }
    } else if s.len() > 0 {
        assert(s.take(0) =~= Seq::<char>::empty());
        assert(s.drop_first() =~= s.skip(1));
    } else {
        assert(s.take(0) =~= s);
    }
}

/// The position of the first `c` in `v` at or after `from`, or the length.
fn find_char(v: &Vec<char>, c: char, from: usize) -> (k: usize)
    requires
        from <= v@.len(),
    ensures
        from <= k <= v@.len(),
        forall|j: int| from <= j < k ==> v@[j] != c,
        k < v@.len() ==> v@[k as int] == c,
{
    let mut k = from;
    while k < v.len() && v[k] != c
        invariant
            from <= k <= v@.len(),
            forall|j: int| from <= j < k ==> v@[j] != c,
        decreases v@.len() - k,
    {
        k = k + 1;
    }
    k
}

/// The clock part of an RFC 3339 timestamp, as in "11:45:15" for
/// "2026-05-03T11:45:15.599+00:00".
pub fn short_time(rfc3339: &str) -> (s: String)
    ensures
        s@ == short_time_text(rfc3339@),
{
    let v = chars_of(rfc3339);
    let t = find_char(&v, 'T', 0);
    proof {
        lemma_first_occurrence(v@, 'T', t as int);
    }
    if t == v.len() {
        return string_of(&v);
    }
    let ghost rest = v@.skip(t + 1);
    let u = find_char(&v, 'T', t + 1);
    let d = find_char(&v, '.', t + 1);
    let end = if u < d {
        u
    } else {
        d
    };
    proof {
        let k = u - (t + 1);
        assert forall|j: int| 0 <= j < k implies rest[j] != 'T' by {
            assert(rest[j] == v@[j + t + 1]);
        }
        lemma_first_occurrence(rest, 'T', k);
        let piece = rest.take(k);
        let k2 = end - (t + 1);
        assert forall|j: int| 0 <= j < k2 implies piece[j] != '.' by {
            assert(piece[j] == v@[j + t + 1]);
        }
        if k2 < piece.len() {
            assert(piece[k2] == v@[end as int]);
        }
        lemma_first_occurrence(piece, '.', k2);
        assert(piece.take(k2) =~= v@.subrange(t + 1, end as int));
    }
    chars_between(&v, t + 1, end)
}

// ---------------------------------------------------------------------
// The indicator's state
// ---------------------------------------------------------------------

/// Where the indicator stands with the backend.
#[derive(Clone, Debug)]
pub enum State {
    Connecting,
    Connected(Snapshot),
    Disconnected(String),
}

/// The start of every icon file's name.
pub open spec fn icon_basename() -> Seq<char> {
    "disk-monitor-tray"@
}

/// The name of the icon drawn at `generation`.
pub open spec fn icon_name_for(generation: u64) -> Seq<char> {
    icon_basename() + "-"@ + decimal(generation as nat)
}

/// Every redraw is named after its count, so redraws with different counts
/// (any 2^64 redraws in a row) have different names, and the panel never
/// mistakes a new icon for a cached one.
pub proof fn law_icon_names_differ(g: u64, h: u64)
    requires
        g != h,
    ensures
        icon_name_for(g) != icon_name_for(h),
{
    let p = icon_basename() + "-"@;
    if icon_name_for(g) == icon_name_for(h) {
        assert((p + decimal(g as nat)).skip(p.len() as int) =~= decimal(g as nat));
        assert((p + decimal(h as nat)).skip(p.len() as int) =~= decimal(h as nat));
        crate::text::lemma_decimal_injective(g as nat, h as nat);
    }
}

/// Every icon file's name begins with the basename, so that the icons of
/// an earlier run can be found and wiped at start.
pub proof fn law_icon_files_share_basename(g: u64)
    ensures
        crate::text::has_prefix(icon_file_text(icon_name_for(g)), icon_basename()),
{
    let name = icon_file_text(icon_name_for(g));
    assert(name.take(icon_basename().len() as int) =~= icon_basename());
}

/// The panel indicator: the backend it talks to, what it last heard, and
/// which icon file it shows. A new icon name is used for every redraw, so
/// that the panel reloads the file rather than a cached image.
pub struct DiskTray {
    backend_url: String,
    state: State,
    generation: u64,
    current_icon_name: String,
}

impl DiskTray {
    /// The backend's address.
    pub closed spec fn backend(&self) -> Seq<char> {
        self.backend_url@
    }

    /// What the indicator last heard.
    pub closed spec fn status(&self) -> State {
        self.state
    }

    /// How many icons have been drawn, modulo 2^64.
    pub closed spec fn drawn(&self) -> u64 {
        self.generation
    }

    /// The name of the icon on show; empty before the first is written.
    pub closed spec fn shown_icon(&self) -> Seq<char> {
        self.current_icon_name@
    }

    /// The icon on show is none yet, or the icon of some redraw.
    #[verifier::type_invariant]
    closed spec fn shows_a_drawn_icon(&self) -> bool {
        self.current_icon_name@.len() == 0 || exists|g: u64|
            self.current_icon_name@ == #[trigger] icon_name_for(g)
    }

    /// The name of the icon of redraw `g`.
    fn name_for(g: u64) -> (r: String)
        ensures
            r@ == icon_name_for(g),
    {
        let base = join(string_of(&chars_of("disk-monitor-tray")), "-");
        let s = join(base, decimal_text(g).as_str());
        proof {
            reveal_strlit("disk-monitor-tray");
        }
        s
    }

    /// An indicator that is connecting to `backend_url` and shows no icon
    /// yet.
    pub fn new(backend_url: String) -> (r: Self)
        ensures
            r.backend() == backend_url@,
            r.status() == State::Connecting,
            r.drawn() == 0,
            r.shown_icon() == Seq::<char>::empty(),
    {
        DiskTray {
            backend_url,
            state: State::Connecting,
            generation: 0,
            current_icon_name: String::new(),
        }
    }

    /// Records what was last heard from the backend. The icon is then
    /// redrawn by the caller, with `next_icon_name` and `commit_icon`.
    pub fn set_state(&mut self, state: State)
        ensures
            final(self).status() == state,
            final(self).backend() == old(self).backend(),
            final(self).drawn() == old(self).drawn(),
            final(self).shown_icon() == old(self).shown_icon(),
    {
        proof {
            use_type_invariant(&*self);
        }
        self.state = state;
    }

    /// What was last heard from the backend.
    pub fn state(&self) -> (r: &State)
        ensures
            *r == self.status(),
    {
        &self.state
    }

    /// The backend's address.
    pub fn backend_url(&self) -> (r: &str)
        ensures
            r@ == self.backend(),
    {
        self.backend_url.as_str()
    }

    /// The mounts of the last snapshot, while connected; none otherwise.
    pub fn current_mounts(&self) -> (r: &[Mount])
        ensures
            r@ == (match self.status() {
                State::Connected(snap) => snap.mounts@,
                _ => Seq::<Mount>::empty(),
            }),
    {
        match &self.state {
            State::Connected(snap) => snap.mounts.as_slice(),
            _ => {
                let none: &[Mount] = &[];
                assert(none@ =~= Seq::<Mount>::empty());
                none
            },
        }
    }

    /// Whether the backend answered last time.
    pub fn connected(&self) -> (r: bool)
        ensures
            r == (self.status() is Connected),
    {
        matches!(self.state, State::Connected(_))
    }

    /// The name of the icon on show: none yet, or the icon of some redraw.
    pub fn icon_name(&self) -> (r: String)
        ensures
            r@ == self.shown_icon(),
            r@.len() == 0 || exists|g: u64| r@ == #[trigger] icon_name_for(g),
    {
        proof {
            use_type_invariant(self);
        }
        self.current_icon_name.clone()
    }

    /// Starts a redraw: counts it (wrapping at 2^64) and gives the name of
    /// the new icon.
    pub fn next_icon_name(&mut self) -> (r: String)
        ensures
            final(self).drawn() == (if old(self).drawn() == u64::MAX {
                0
            } else {
                (old(self).drawn() + 1) as u64
            }),
            r@ == icon_name_for(final(self).drawn()),
            final(self).status() == old(self).status(),
            final(self).backend() == old(self).backend(),
            final(self).shown_icon() == old(self).shown_icon(),
    {
        proof {
            use_type_invariant(&*self);
        }
        self.generation = self.generation.wrapping_add(1);
        Self::name_for(self.generation)
    }

    /// Ends a redraw whose file has been written: the icon of the last
    /// counted redraw is now the one on show, and the file of the previous
    /// one, if there was one, is the one to delete.
    pub fn commit_icon(&mut self) -> (old_file: Option<String>)
        ensures
            final(self).shown_icon() == icon_name_for(old(self).drawn()),
            final(self).status() == old(self).status(),
            final(self).backend() == old(self).backend(),
            final(self).drawn() == old(self).drawn(),
            old_file matches Some(f) ==> old(self).shown_icon().len() > 0 && f@ == icon_file_text(
                old(self).shown_icon(),
            ),
            old_file is None ==> old(self).shown_icon().len() == 0,
    {
        let mut old_name = Self::name_for(self.generation);
        std::mem::swap(&mut old_name, &mut self.current_icon_name);
        if old_name.as_str().is_empty() {
            None
        } else {
            Some(icon_file_name(old_name.as_str()))
        }
    }
}

/// The file that holds the icon named `name`.
pub open spec fn icon_file_text(name: Seq<char>) -> Seq<char> {
    name + ".png"@
}

/// The file name of the icon named `name`.
pub fn icon_file_name(name: &str) -> (r: String)
    ensures
        r@ == icon_file_text(name@),
{
    join(string_of(&chars_of(name)), ".png")
}

// ---------------------------------------------------------------------
// Labels of the largest-files menu
// ---------------------------------------------------------------------

/// `s` right-aligned in a field of `width` characters, as `{:>width}`
/// pads it.
pub open spec fn pad_left(s: Seq<char>, width: nat) -> Seq<char> {
    if s.len() < width {
        Seq::new((width - s.len()) as nat, |i: int| ' ') + s
    } else {
        s
    }
}

/// The heading of a mount's largest-files submenu.
pub open spec fn largest_files_heading_text(files: nat, scanned_at: Option<Seq<char>>) -> Seq<char> {
    match scanned_at {
        Some(t) => "Largest files (top "@ + decimal(files) + ", scanned "@ + short_time_text(t)
            + ")"@,
        None => "Largest files (scanning\u{2026})"@,
    }
}

/// The line that stands in for an empty largest-files list.
pub open spec fn empty_list_note_text(scanned: bool) -> Seq<char> {
    if scanned {
        "(no readable files found)"@
    } else {
        "Initial scan in progress; refresh after a few minutes\u{2026}"@
    }
}

/// The heading of a mount's largest-files submenu, such as
/// "Largest files (top 20, scanned 11:45:15)".
pub fn largest_files_heading(mount: &Mount) -> (r: String)
    ensures
        r@ == largest_files_heading_text(
            mount.largest_files@.len(),
            crate::model::opt_text(mount.largest_files_scanned_at),
        ),
{
    match &mount.largest_files_scanned_at {
        Some(scanned) => {
            let count = mount.largest_files.len() as u64;
            let s = join(string_of(&chars_of("Largest files (top ")), decimal_text(count).as_str());
            let s = join(s, ", scanned ");
            let s = join(s, short_time(scanned.as_str()).as_str());
            join(s, ")")
        },
        None => string_of(&chars_of("Largest files (scanning\u{2026})")),
    }
}

/// The note shown in place of the list when a mount has no largest files:
/// that none was readable, once scanned, or that the first scan is still
/// running.
pub fn largest_files_note(mount: &Mount) -> (r: Option<String>)
    ensures
        r matches Some(t) ==> mount.largest_files@.len() == 0 && t@ == empty_list_note_text(
            mount.largest_files_scanned_at is Some,
        ),
        r is None ==> mount.largest_files@.len() > 0,
{
    if mount.largest_files.len() > 0 {
        return None;
    }
    if mount.largest_files_scanned_at.is_some() {
        Some(string_of(&chars_of("(no readable files found)")))
    } else {
        Some(string_of(&chars_of("Initial scan in progress; refresh after a few minutes\u{2026}")))
    }
}

/// The label of a file of the list: its size right-aligned in nine
/// characters, two spaces, and its path.
pub open spec fn file_label_text(f: FileEntryView) -> Seq<char> {
    pad_left(bytes_text(f.size_bytes as nat), 9) + "  "@ + f.path
}

/// The label of one file of the list, as in " 5.00 GiB  /home/me/big.iso".
pub fn file_label(file: &FileEntry) -> (r: String)
    ensures
        r@ == file_label_text(file@),
{
    let size = chars_of(format_bytes(file.size_bytes).as_str());
    let mut padded: Vec<char> = Vec::new();
    let mut n = size.len();
    while n < 9
        invariant
            size@.len() <= n <= 9 || (n == size@.len() && n >= 9),
            padded@ == Seq::new((n - size@.len()) as nat, |i: int| ' '),
        decreases 9 - n,
    {
        padded.push(' ');
        assert(padded@ =~= Seq::new((n + 1 - size@.len()) as nat, |i: int| ' '));
        n = n + 1;
    }
    let mut i: usize = 0;
    let ghost pad = padded@;
    while i < size.len()
        invariant
            i <= size@.len(),
            padded@ == pad + size@.take(i as int),
        decreases size@.len() - i,
    {
        padded.push(size[i]);
        assert(padded@ =~= pad + size@.take(i + 1));
        i = i + 1;
    }
    assert(size@.take(size@.len() as int) =~= size@);
    assert(padded@ =~= pad_left(bytes_text(file.size_bytes as nat), 9)) by {
        if size@.len() >= 9 {
            assert(pad =~= Seq::<char>::empty());
        }
    }
    let s = join(string_of(&padded), "  ");
    join(s, file.path.as_str())
}

} // verus!

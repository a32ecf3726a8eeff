use vstd::prelude::*;
use vstd::string::StringSliceAdditionalSpecFns;
use vstd::utf8::{encode_scalar, encode_utf8, has_width_1_encoding};

use crate::arrange::{
    is_index_permutation, keeps_ties_in_order, lemma_insert_keeps_ties, lemma_permutation_insert,
    rearranges, stably_rearranges,
};
use crate::model::{Mount, MountView, Usage, mount_views};
use crate::text::{
    chars_of, decode_utf8_lossy, equals_text, has_prefix, lemma_text_lt_at_first_difference,
    lemma_text_lt_irreflexive,
    lemma_text_lt_transitive, same_text, starts_with_text, string_of, text_less, text_lt,
    utf8_lossy_decoding, lossy_text,
};

verus! {

broadcast use vstd::string::group_string_axioms;

// ---------------------------------------------------------------------
// Fields of a mount-table line
// ---------------------------------------------------------------------

/// Unicode's White_Space property, the test of `char::is_whitespace`.
pub open spec fn is_white_space(c: char) -> bool {
    let u = c as u32;
    ||| (0x9 <= u && u <= 0xd)
    ||| u == 0x20
    ||| u == 0x85
    ||| u == 0xa0
    ||| u == 0x1680
    ||| (0x2000 <= u && u <= 0x200a)
    ||| u == 0x2028
    ||| u == 0x2029
    ||| u == 0x202f
    ||| u == 0x205f
    ||| u == 0x3000
}

/// Whether `c` is a white-space character.
pub fn is_white_space_char(c: char) -> (r: bool)
    ensures
        r == is_white_space(c),
{
    let u = c as u32;
    (0x9 <= u && u <= 0xd) || u == 0x20 || u == 0x85 || u == 0xa0 || u == 0x1680 || (0x2000 <= u
        && u <= 0x200a) || u == 0x2028 || u == 0x2029 || u == 0x202f || u == 0x205f || u == 0x3000
}

/// The maximal runs of non-white-space characters of `s`, from left to
/// right (what `str::split_whitespace` yields). A character that is not
/// white space extends the field of the character before it, if that one
/// is not white space either, and starts a new field otherwise.
pub open spec fn fields_of(s: Seq<char>) -> Seq<Seq<char>>
    decreases s.len(),
{
    if s.len() == 0 {
        Seq::empty()
    } else {
        let before = fields_of(s.drop_last());
        let c = s.last();
        if is_white_space(c) {
            before
        } else if s.len() >= 2 && !is_white_space(s[s.len() - 2]) {
            before.update(before.len() - 1, before.last().push(c))
        } else {
            before.push(seq![c])
        }
    }
}

/// The views of a list of character vectors.
pub open spec fn char_vec_views(v: Seq<Vec<char>>) -> Seq<Seq<char>> {
    v.map_values(|t: Vec<char>| t@)
}

/// The white-space separated fields of `line`.
pub fn split_fields(line: &Vec<char>) -> (r: Vec<Vec<char>>)
    ensures
        char_vec_views(r@) == fields_of(line@),
{
    let mut toks: Vec<Vec<char>> = Vec::new();
    let mut cur: Vec<char> = Vec::new();
    let mut i: usize = 0;
    while i < line.len()
        invariant
            i <= line@.len(),
            cur@.len() > 0 <==> (i > 0 && !is_white_space(line@[i - 1])),
            fields_of(line@.take(i as int)) == (if cur@.len() > 0 {
                char_vec_views(toks@).push(cur@)
            } else {
                char_vec_views(toks@)
            }),
        decreases line@.len() - i,
    {
        let c = line[i];
        let ghost prev_toks = toks@;
        let ghost prev_cur = cur@;
        proof {
            assert(line@.take(i + 1).drop_last() =~= line@.take(i as int));
            assert(line@.take(i + 1).last() == c);
        }
        if is_white_space_char(c) {
            if cur.len() > 0 {
                let done = cur;
                cur = Vec::new();
                toks.push(done);
                assert(char_vec_views(toks@) =~= char_vec_views(prev_toks).push(prev_cur));
            }
        } else {
            cur.push(c);
            proof {
                if prev_cur.len() > 0 {
                    let before = char_vec_views(prev_toks).push(prev_cur);
                    assert(before.update(before.len() - 1, before.last().push(c))
                        =~= char_vec_views(toks@).push(cur@));
                } else {
                    assert(cur@ =~= seq![c]);
                }
            }
        }
        i = i + 1;
    }
    if cur.len() > 0 {
        let ghost prev_toks = toks@;
        toks.push(cur);
        assert(char_vec_views(toks@) =~= char_vec_views(prev_toks).push(toks@.last()@));
    }
    assert(line@.take(line@.len() as int) =~= line@);
    toks
}

// ---------------------------------------------------------------------
// Octal escapes
// ---------------------------------------------------------------------

/// An ASCII octal digit, `0` to `7`.
pub open spec fn is_octal_digit(b: u8) -> bool {
    48 <= b && b <= 55
}

/// `b` begins with a backslash and three octal digits.
pub open spec fn starts_with_octal_escape(b: Seq<u8>) -> bool {
    &&& b.len() > 3
    &&& b[0] == 92
    &&& is_octal_digit(b[1])
    &&& is_octal_digit(b[2])
    &&& is_octal_digit(b[3])
}

/// The number that the three octal digits after the backslash denote.
pub open spec fn octal_escape_value(b: Seq<u8>) -> int {
    (b[1] - 48) * 64 + (b[2] - 48) * 8 + (b[3] - 48)
}

/// `b` with each backslash-and-three-octal-digits escape replaced, from
/// left to right, by the byte that the digits denote, taken modulo 256
/// (so that `\777` gives the byte 255, as the byte arithmetic of the
/// decoder wraps).
pub open spec fn unescape_octal_bytes(b: Seq<u8>) -> Seq<u8>
    decreases b.len(),
{
    if b.len() == 0 {
        Seq::empty()
    } else if starts_with_octal_escape(b) {
        seq![(octal_escape_value(b) % 256) as u8] + unescape_octal_bytes(b.skip(4))
    } else {
        seq![b[0]] + unescape_octal_bytes(b.skip(1))
    }
}

/// Whether `b` is an octal digit.
fn is_octal_digit_byte(b: u8) -> (r: bool)
    ensures
        r == is_octal_digit(b),
{
    48 <= b && b <= 55
}

/// Undoes the kernel's escaping of mount-table fields, where a space is
/// written `\040` and other characters in the same way: each backslash
/// followed by three octal digits becomes the byte they denote (modulo
/// 256), and the bytes are then read as UTF-8, with invalid sequences
/// replaced.
pub fn unescape_octal(s: &str) -> (r: String)
    ensures
        r@ == utf8_lossy_decoding(unescape_octal_bytes(s.spec_bytes())),
        r@ == lossy_text(unescape_octal_bytes(s.spec_bytes())),
{
    let bytes = s.as_bytes();
    let mut out: Vec<u8> = Vec::with_capacity(bytes.len());
    let mut i: usize = 0;
    assert(bytes@.skip(0) =~= bytes@);
    while i < bytes.len()
        invariant
            bytes@ == s.spec_bytes(),
            i <= bytes@.len(),
            out@ + unescape_octal_bytes(bytes@.skip(i as int)) == unescape_octal_bytes(bytes@),
        decreases bytes@.len() - i,
    {
        let ghost rest = bytes@.skip(i as int);
        if bytes[i] == 92 && bytes.len() - i > 3 {
            let d1 = bytes[i + 1];
            let d2 = bytes[i + 2];
            let d3 = bytes[i + 3];
            if is_octal_digit_byte(d1) && is_octal_digit_byte(d2) && is_octal_digit_byte(d3) {
                assert(rest[0] == 92 && rest[1] == d1 && rest[2] == d2 && rest[3] == d3);
                assert(starts_with_octal_escape(rest));
                let full: u16 = (d1 as u16 - 48) * 64 + (d2 as u16 - 48) * 8 + (d3 as u16 - 48);
                let value: u8 = (full % 256) as u8;
                let ghost before = out@;
                out.push(value);
                proof {
                    assert(value == (octal_escape_value(rest) % 256) as u8);
                    assert(rest.skip(4) =~= bytes@.skip(i + 4));
                    assert(out@ =~= before + seq![value]);
                    assert(out@ + unescape_octal_bytes(bytes@.skip(i + 4)) =~= before + (seq![
                        value,
                    ] + unescape_octal_bytes(rest.skip(4))));
                }
                i = i + 4;
                continue ;
            }
        }
        let ghost before = out@;
        let b = bytes[i];
        out.push(b);
        proof {
            assert(!starts_with_octal_escape(rest));
            assert(rest[0] == b);
            assert(rest.skip(1) =~= bytes@.skip(i + 1));
            assert(out@ + unescape_octal_bytes(bytes@.skip(i + 1)) =~= before + (seq![b]
                + unescape_octal_bytes(rest.skip(1))));
        }
        i = i + 1;
    }
    assert(bytes@.skip(i as int) =~= Seq::<u8>::empty());
    assert(out@ =~= unescape_octal_bytes(bytes@));
    decode_utf8_lossy(out.as_slice())
}

// ---------------------------------------------------------------------
// One line of the mount table
// ---------------------------------------------------------------------

/// The text of a mount-table field once its octal escapes are undone: the
/// unescaped bytes decoded as UTF-8 where they are valid UTF-8, and as
/// `String::from_utf8_lossy` gives them otherwise.
pub open spec fn decode_mount_field(f: Seq<char>) -> Seq<char> {
    lossy_text(unescape_octal_bytes(encode_utf8(f)))
}

/// No byte of the UTF-8 encoding of a character other than `\\` is a
/// backslash: ASCII characters encode as themselves, the others only as
/// bytes from 0x80 up.
proof fn lemma_scalar_has_no_backslash(c: char)
    requires
        c != '\\',
    ensures
        !encode_scalar(c as u32).contains(92u8),
{
    let u = c as u32;
    vstd::utf8::char_is_scalar(c);
    assert(u != 92u32);
    let e = encode_scalar(u);
    if has_width_1_encoding(u) {
        assert((u & 0x7F) as u8 != 92u8) by (bit_vector)
            requires
                u <= 0x7F,
                u != 92u32,
        ;
        assert(e[0] != 92u8);
    } else {
        assert(forall|y: u8| (0xC0u8 | y) != 92u8) by (bit_vector);
        assert(forall|y: u8| (0xE0u8 | y) != 92u8) by (bit_vector);
        assert(forall|y: u8| (0xF0u8 | y) != 92u8) by (bit_vector);
        assert(forall|y: u8| (0x80u8 | y) != 92u8) by (bit_vector);
        assert forall|k: int| 0 <= k < e.len() implies e[k] != 92u8 by {}
    }
}

/// A field that holds no backslash encodes to bytes without one.
proof fn lemma_encoding_has_no_backslash(f: Seq<char>)
    requires
        !f.contains('\\'),
    ensures
        !encode_utf8(f).contains(92u8),
    decreases f.len(),
{
    if f.len() > 0 {
        assert(f[0] != '\\');
        lemma_scalar_has_no_backslash(f[0]);
        let rest = f.drop_first();
        assert(!rest.contains('\\')) by {
            if rest.contains('\\') {
                let k = choose|k: int| 0 <= k < rest.len() && rest[k] == '\\';
                assert(f[k + 1] == '\\');
            }
        }
        lemma_encoding_has_no_backslash(rest);
        let a = encode_scalar(f[0] as u32);
        let b = encode_utf8(rest);
        assert(!(a + b).contains(92u8)) by {
            if (a + b).contains(92u8) {
                let k = choose|k: int| 0 <= k < (a + b).len() && (a + b)[k] == 92u8;
                if k < a.len() {
                    assert(a[k] == 92u8);
                } else {
                    assert(b[k - a.len()] == 92u8);
                }
            }
        }
    }
}

/// Bytes without a backslash hold no escape and are left as they are.
proof fn lemma_unescape_without_backslash(b: Seq<u8>)
    requires
        !b.contains(92u8),
    ensures
        unescape_octal_bytes(b) == b,
    decreases b.len(),
{
    if b.len() > 0 {
        assert(b[0] != 92u8);
        let rest = b.skip(1);
        assert(!rest.contains(92u8)) by {
            if rest.contains(92u8) {
                let k = choose|k: int| 0 <= k < rest.len() && rest[k] == 92u8;
                assert(b[k + 1] == 92u8);
            }
        }
        lemma_unescape_without_backslash(rest);
        assert(seq![b[0]] + rest =~= b);
    }
}

/// A mount-table field without a backslash holds no escape: undoing the
/// escapes gives the field as written.
pub proof fn lemma_plain_field_decodes_to_itself(f: Seq<char>)
    ensures
        !f.contains('\\') ==> decode_mount_field(f) == f,
{
    if !f.contains('\\') {
        lemma_encoding_has_no_backslash(f);
        lemma_unescape_without_backslash(encode_utf8(f));
        vstd::utf8::encode_utf8_valid_utf8(f);
        vstd::utf8::encode_utf8_decode_utf8(f);
    }
}

/// What a parsed mount-table entry denotes.
pub struct EntryView {
    pub device: Seq<char>,
    pub mount_point: Seq<char>,
    pub fs_type: Seq<char>,
}

/// The device, mount point and filesystem type of one mount-table line.
pub struct ParsedEntry {
    pub device: String,
    pub mount_point: String,
    pub fs_type: String,
}

impl View for ParsedEntry {
    type V = EntryView;

    open spec fn view(&self) -> EntryView {
        EntryView { device: self.device@, mount_point: self.mount_point@, fs_type: self.fs_type@ }
    }
}

/// The entry that a mount-table line describes: none if it has fewer
/// than three fields; otherwise the first field, unescaped, is the device,
/// the second, unescaped, the mount point, and the third the type.
pub open spec fn parsed_line(line: Seq<char>) -> Option<EntryView> {
    let f = fields_of(line);
    if f.len() < 3 {
        None
    } else {
        Some(
            EntryView {
                device: decode_mount_field(f[0]),
                mount_point: decode_mount_field(f[1]),
                fs_type: f[2],
            },
        )
    }
}

/// The view of an optional entry.
pub open spec fn opt_entry_view(e: Option<ParsedEntry>) -> Option<EntryView> {
    match e {
        Some(p) => Some(p@),
        None => None,
    }
}

/// Parses one line of `/proc/mounts`.
pub fn parse_mount_line(line: &str) -> (r: Option<ParsedEntry>)
    ensures
        opt_entry_view(r) == parsed_line(line@),
        r matches Some(e) ==> {
            let f = fields_of(line@);
            &&& !f[0].contains('\\') ==> e.device@ == f[0]
            &&& !f[1].contains('\\') ==> e.mount_point@ == f[1]
        },
{
    let chars = chars_of(line);
    let fields = split_fields(&chars);
    if fields.len() < 3 {
        return None;
    }
    assert(fields@[0]@ == fields_of(line@)[0]);
    assert(fields@[1]@ == fields_of(line@)[1]);
    assert(fields@[2]@ == fields_of(line@)[2]);
    let device = string_of(&fields[0]);
    let mount_point = string_of(&fields[1]);
    let fs_type = string_of(&fields[2]);
    let device = unescape_octal(device.as_str());
    let mount_point = unescape_octal(mount_point.as_str());
    proof {
        lemma_plain_field_decodes_to_itself(fields_of(line@)[0]);
        lemma_plain_field_decodes_to_itself(fields_of(line@)[1]);
    }
    Some(ParsedEntry { device, mount_point, fs_type })
}

// ---------------------------------------------------------------------
// Which filesystems are reported
// ---------------------------------------------------------------------

/// The filesystem types that hold no user data: kernel interfaces, memory
/// filesystems, snap images and the like.
pub open spec fn is_pseudo_filesystem_type(t: Seq<char>) -> bool {
    ||| t == "proc"@
    ||| t == "sysfs"@
    ||| t == "tmpfs"@
    ||| t == "devtmpfs"@
    ||| t == "devpts"@
    ||| t == "cgroup"@
    ||| t == "cgroup2"@
    ||| t == "pstore"@
    ||| t == "bpf"@
    ||| t == "tracefs"@
    ||| t == "debugfs"@
    ||| t == "securityfs"@
    ||| t == "configfs"@
    ||| t == "fusectl"@
    ||| t == "fuse.gvfsd-fuse"@
    ||| t == "fuse.portal"@
    ||| t == "mqueue"@
    ||| t == "hugetlbfs"@
    ||| t == "autofs"@
    ||| t == "binfmt_misc"@
    ||| t == "rpc_pipefs"@
    ||| t == "nsfs"@
    ||| t == "ramfs"@
    ||| t == "squashfs"@
    ||| t == "overlay"@
    ||| t == "efivarfs"@
    ||| t == "selinuxfs"@
}

/// A mount is reported unless its type is a pseudo filesystem, it lies
/// under `/snap/` or `/var/snap/`, its mount point begins with `/proc`,
/// `/sys`, `/dev` or `/run`, or it is a `vfat` filesystem (the EFI system
/// partition) mounted under `/boot`.
pub open spec fn is_reported_filesystem(fs_type: Seq<char>, mount_point: Seq<char>) -> bool {
    &&& !is_pseudo_filesystem_type(fs_type)
    &&& !has_prefix(mount_point, "/snap/"@)
    &&& !has_prefix(mount_point, "/var/snap/"@)
    &&& !has_prefix(mount_point, "/proc"@)
    &&& !has_prefix(mount_point, "/sys"@)
    &&& !has_prefix(mount_point, "/dev"@)
    &&& !has_prefix(mount_point, "/run"@)
    &&& !(fs_type == "vfat"@ && has_prefix(mount_point, "/boot"@))
}

/// No mount of a pseudo filesystem type (kernel interfaces, memory
/// filesystems, snap images and the like) is reported, wherever it is
/// mounted; nor is anything mounted under `/snap/`, `/var/snap/`, `/proc`,
/// `/sys`, `/dev` or `/run`, nor a vfat filesystem under `/boot`. Any
/// other filesystem is reported.
pub proof fn law_reported_filesystems(t: Seq<char>, mp: Seq<char>)
    ensures
        (t == "proc"@ || t == "sysfs"@ || t == "tmpfs"@ || t == "devtmpfs"@ || t == "devpts"@ || t
            == "cgroup"@ || t == "cgroup2"@ || t == "pstore"@ || t == "bpf"@ || t == "tracefs"@ || t
            == "debugfs"@ || t == "securityfs"@ || t == "configfs"@ || t == "fusectl"@ || t
            == "fuse.gvfsd-fuse"@ || t == "fuse.portal"@ || t == "mqueue"@ || t == "hugetlbfs"@ || t
            == "autofs"@ || t == "binfmt_misc"@ || t == "rpc_pipefs"@ || t == "nsfs"@ || t
            == "ramfs"@ || t == "squashfs"@ || t == "overlay"@ || t == "efivarfs"@ || t
            == "selinuxfs"@) ==> !is_reported_filesystem(t, mp),
        (has_prefix(mp, "/snap/"@) || has_prefix(mp, "/var/snap/"@) || has_prefix(mp, "/proc"@)
            || has_prefix(mp, "/sys"@) || has_prefix(mp, "/dev"@) || has_prefix(mp, "/run"@))
            ==> !is_reported_filesystem(t, mp),
        t == "vfat"@ && has_prefix(mp, "/boot"@) ==> !is_reported_filesystem(t, mp),
        !(t == "proc"@ || t == "sysfs"@ || t == "tmpfs"@ || t == "devtmpfs"@ || t == "devpts"@ || t
            == "cgroup"@ || t == "cgroup2"@ || t == "pstore"@ || t == "bpf"@ || t == "tracefs"@ || t
            == "debugfs"@ || t == "securityfs"@ || t == "configfs"@ || t == "fusectl"@ || t
            == "fuse.gvfsd-fuse"@ || t == "fuse.portal"@ || t == "mqueue"@ || t == "hugetlbfs"@ || t
            == "autofs"@ || t == "binfmt_misc"@ || t == "rpc_pipefs"@ || t == "nsfs"@ || t
            == "ramfs"@ || t == "squashfs"@ || t == "overlay"@ || t == "efivarfs"@ || t
            == "selinuxfs"@) && !(has_prefix(mp, "/snap/"@) || has_prefix(mp, "/var/snap/"@)
            || has_prefix(mp, "/proc"@) || has_prefix(mp, "/sys"@) || has_prefix(mp, "/dev"@)
            || has_prefix(mp, "/run"@)) && !(t == "vfat"@ && has_prefix(mp, "/boot"@))
            ==> is_reported_filesystem(t, mp),
{
}

/// Whether `t` names a pseudo filesystem type.
fn is_pseudo_type(t: &Vec<char>) -> (r: bool)
    ensures
        r == is_pseudo_filesystem_type(t@),
{
    equals_text(t, "proc") || equals_text(t, "sysfs") || equals_text(t, "tmpfs") || equals_text(
        t,
        "devtmpfs",
    ) || equals_text(t, "devpts") || equals_text(t, "cgroup") || equals_text(t, "cgroup2")
        || equals_text(t, "pstore") || equals_text(t, "bpf") || equals_text(t, "tracefs")
        || equals_text(t, "debugfs") || equals_text(t, "securityfs") || equals_text(t, "configfs")
        || equals_text(t, "fusectl") || equals_text(t, "fuse.gvfsd-fuse") || equals_text(
        t,
        "fuse.portal",
    ) || equals_text(t, "mqueue") || equals_text(t, "hugetlbfs") || equals_text(t, "autofs")
        || equals_text(t, "binfmt_misc") || equals_text(t, "rpc_pipefs") || equals_text(t, "nsfs")
        || equals_text(t, "ramfs") || equals_text(t, "squashfs") || equals_text(t, "overlay")
        || equals_text(t, "efivarfs") || equals_text(t, "selinuxfs")
}

/// Whether a parsed entry is a filesystem worth reporting.
pub fn is_real_filesystem(entry: &ParsedEntry) -> (r: bool)
    ensures
        r == is_reported_filesystem(entry.fs_type@, entry.mount_point@),
{
    let fs_type = chars_of(entry.fs_type.as_str());
    let mp = chars_of(entry.mount_point.as_str());
    if is_pseudo_type(&fs_type) {
        return false;
    }
    if starts_with_text(&mp, "/snap/") {
        return false;
    }
    if starts_with_text(&mp, "/var/snap/") {
        return false;
    }
    if starts_with_text(&mp, "/proc") || starts_with_text(&mp, "/sys") || starts_with_text(
        &mp,
        "/dev",
    ) || starts_with_text(&mp, "/run") {
        return false;
    }
    if equals_text(&fs_type, "vfat") && starts_with_text(&mp, "/boot") {
        return false;
    }
    true
}


// ---------------------------------------------------------------------
// Lines of the mount table
// ---------------------------------------------------------------------

/// The pieces of `s` between its newline characters, from left to right;
/// there is one more piece than there are newlines. Every entry-bearing
/// line of the text is one piece; the pieces that `str::lines` would drop
/// or shorten differ only by being empty or by a final carriage return,
/// which is white space and so does not change a line's fields.
pub open spec fn newline_pieces(s: Seq<char>) -> Seq<Seq<char>>
    decreases s.len(),
{
    if s.len() == 0 {
        seq![Seq::empty()]
    } else {
        let before = newline_pieces(s.drop_last());
        if s.last() == '\n' {
            before.push(Seq::empty())
        } else {
            before.update(before.len() - 1, before.last().push(s.last()))
        }
    }
}

/// The newline-separated pieces of `text`.
fn split_lines(text: &Vec<char>) -> (r: Vec<Vec<char>>)
    ensures
        char_vec_views(r@) == newline_pieces(text@),
{
    let mut done: Vec<Vec<char>> = Vec::new();
    let mut cur: Vec<char> = Vec::new();
    let mut i: usize = 0;
    assert(text@.take(0) =~= Seq::<char>::empty());
    assert(char_vec_views(done@).push(cur@) =~= seq![Seq::<char>::empty()]);
    while i < text.len()
        invariant
            i <= text@.len(),
            newline_pieces(text@.take(i as int)) == char_vec_views(done@).push(cur@),
        decreases text@.len() - i,
    {
        let c = text[i];
        let ghost prev_done = done@;
        let ghost prev_cur = cur@;
        proof {
            assert(text@.take(i + 1).drop_last() =~= text@.take(i as int));
            assert(text@.take(i + 1).last() == c);
        }
        if c == '\n' {
            let piece = cur;
            cur = Vec::new();
            done.push(piece);
            assert(char_vec_views(done@).push(cur@) =~= char_vec_views(prev_done).push(
                prev_cur,
            ).push(Seq::empty()));
        } else {
            cur.push(c);
            let ghost before = char_vec_views(prev_done).push(prev_cur);
            assert(before.update(before.len() - 1, before.last().push(c)) =~= char_vec_views(
                done@,
            ).push(cur@));
        }
        i = i + 1;
    }
    let ghost prev_done = done@;
    done.push(cur);
    assert(char_vec_views(done@) =~= char_vec_views(prev_done).push(done@.last()@));
    assert(text@.take(text@.len() as int) =~= text@);
    done
}

// ---------------------------------------------------------------------
// Order of the reported mounts
// ---------------------------------------------------------------------

/// The root mount comes first; the others follow in code point order of
/// their mount points.
pub open spec fn mount_point_before(a: Seq<char>, b: Seq<char>) -> bool {
    if a == "/"@ {
        b != "/"@
    } else if b == "/"@ {
        false
    } else {
        text_lt(a, b)
    }
}

/// No mount of `ms` comes before one that precedes it in the list.
pub open spec fn in_mount_order(ms: Seq<MountView>) -> bool {
    forall|i: int, j: int|
        0 <= i < j < ms.len() ==> !mount_point_before(ms[j].mount_point, ms[i].mount_point)
}

proof fn lemma_mount_before_transitive(a: Seq<char>, b: Seq<char>, c: Seq<char>)
    requires
        mount_point_before(a, b),
        mount_point_before(b, c),
    ensures
        mount_point_before(a, c),
{
    if a != "/"@ {
        lemma_text_lt_transitive(a, b, c);
    }
}

proof fn lemma_mount_before_irreflexive(a: Seq<char>)
    ensures
        !mount_point_before(a, a),
{
    lemma_text_lt_irreflexive(a);
}

/// The root mount comes before every other mount point, and nothing comes
/// before it.
pub proof fn law_root_mount_first(b: Seq<char>)
    ensures
        b != "/"@ ==> mount_point_before("/"@, b),
        !mount_point_before(b, "/"@),
{
}

/// Any two mount points other than the root come in code point order,
/// whatever their lengths: where they agree on their first `k` characters,
/// the one whose next character has the smaller code point comes first,
/// and one that ends there comes before the longer one.
pub proof fn law_mounts_in_code_point_order(a: Seq<char>, b: Seq<char>, k: int)
    requires
        a != "/"@,
        b != "/"@,
        0 <= k <= a.len(),
        k <= b.len(),
        a.take(k) == b.take(k),
    ensures
        k < a.len() && k < b.len() && (a[k] as u32) < (b[k] as u32) ==> mount_point_before(a, b)
            && !mount_point_before(b, a),
        k == a.len() && k < b.len() ==> mount_point_before(a, b) && !mount_point_before(b, a),
{
    lemma_text_lt_at_first_difference(a, b, k);
    if text_lt(a, b) && text_lt(b, a) {
        lemma_text_lt_transitive(a, b, a);
        lemma_text_lt_irreflexive(a);
    }
}

/// Whether mount `a` comes before mount `b` in the reported order.
fn mount_before(a: &Mount, b: &Mount) -> (r: bool)
    ensures
        r == mount_point_before(a.mount_point@, b.mount_point@),
{
    let x = chars_of(a.mount_point.as_str());
    let y = chars_of(b.mount_point.as_str());
    if equals_text(&x, "/") {
        !equals_text(&y, "/")
    } else if equals_text(&y, "/") {
        false
    } else {
        text_less(&x, &y)
    }
}

proof fn lemma_insert_in_order(ms: Seq<MountView>, x: MountView, p: int)
    requires
        in_mount_order(ms),
        0 <= p <= ms.len(),
        forall|q: int| 0 <= q < p ==> !mount_point_before(x.mount_point, #[trigger] ms[q].mount_point),
        p < ms.len() ==> mount_point_before(x.mount_point, ms[p].mount_point),
    ensures
        in_mount_order(ms.insert(p, x)),
{
    let vs = ms.insert(p, x);
    assert forall|a: int, b: int| 0 <= a < b < vs.len() implies !mount_point_before(
        vs[b].mount_point,
        vs[a].mount_point,
    ) by {
        if a != p && b != p {
            let ia = if a < p { a } else { a - 1 };
            let ib = if b < p { b } else { b - 1 };
            assert(vs[a] == ms[ia]);
            assert(vs[b] == ms[ib]);
        } else if b == p {
            assert(vs[a] == ms[a]);
        } else {
            assert(vs[b] == ms[b - 1]);
            if mount_point_before(ms[b - 1].mount_point, x.mount_point) {
                lemma_mount_before_transitive(
                    ms[b - 1].mount_point,
                    x.mount_point,
                    ms[p].mount_point,
                );
                if b - 1 == p {
                    lemma_mount_before_irreflexive(ms[p].mount_point);
                }
            }
        }
    }
}

/// Puts mounts in the reported order: root first, then by mount point.
/// Mounts with the same mount point keep their relative order.
pub fn sort_mounts(mounts: Vec<Mount>) -> (r: Vec<Mount>)
    ensures
        rearranges(r@, mounts@),
        stably_rearranges(r@, mounts@, |m: Mount| m.mount_point@),
        in_mount_order(mount_views(r@)),
{
    let ghost orig = mounts@;
    let mut input = mounts;
    let n = input.len();
    let mut out: Vec<Mount> = Vec::new();
    let ghost mut perm: Seq<int> = Seq::empty();
    let mut i: usize = 0;
    assert(orig.skip(0) =~= orig);
    while i < n
        invariant
            n == orig.len(),
            i <= n,
            input@ == orig.skip(i as int),
            out@.len() == i,
            is_index_permutation(perm, i as nat),
            forall|k: int| 0 <= k < i ==> #[trigger] out@[k] == orig[perm[k]],
            keeps_ties_in_order(out@, perm, |m: Mount| m.mount_point@),
            in_mount_order(mount_views(out@)),
        decreases n - i,
    {
        assert(input@[0] == orig[i as int]);
        let x = input.remove(0);
        assert(input@ =~= orig.skip(i + 1));
        let mut p: usize = 0;
        while p < out.len() && !mount_before(&x, &out[p])
            invariant
                p <= out@.len(),
                forall|q: int|
                    0 <= q < p ==> !mount_point_before(
                        x.mount_point@,
                        #[trigger] out@[q].mount_point@,
                    ),
            decreases out@.len() - p,
        {
            p = p + 1;
        }
        let ghost before = out@;
        proof {
            assert forall|q: int| 0 <= q < p implies !mount_point_before(
                x@.mount_point,
                #[trigger] mount_views(before)[q].mount_point,
            ) by {
                assert(mount_views(before)[q] == before[q]@);
            }
            if p < before.len() {
                assert(mount_views(before)[p as int] == before[p as int]@);
            }
            assert forall|q: int| p <= q < before.len() implies (|m: Mount| m.mount_point@)(
                #[trigger] before[q],
            ) != (|m: Mount| m.mount_point@)(x) by {
                let vs = mount_views(before);
                assert(vs[q] == before[q]@);
                assert(vs[p as int] == before[p as int]@);
                assert(mount_point_before(x.mount_point@, before[p as int].mount_point@));
                if q == p {
                    lemma_mount_before_irreflexive(x.mount_point@);
                } else {
                    assert(!mount_point_before(vs[q].mount_point, vs[p as int].mount_point));
                }
            }
            lemma_insert_keeps_ties(before, perm, |m: Mount| m.mount_point@, x, p as int, i as int);
        }
        out.insert(p, x);
        proof {
            lemma_permutation_insert(perm, i as nat, p as int);
            perm = perm.insert(p as int, i as int);
            assert forall|k: int| 0 <= k < i + 1 implies #[trigger] out@[k] == orig[perm[k]] by {
                if k > p {
                    assert(out@[k] == before[k - 1]);
                }
            }
            assert(mount_views(out@) =~= mount_views(before).insert(p as int, x@));
            lemma_insert_in_order(mount_views(before), x@, p as int);
        }
        i = i + 1;
    }
    assert(is_index_permutation(perm, orig.len()));
    out
}

// ---------------------------------------------------------------------
// Sampling the mount table
// ---------------------------------------------------------------------

/// `device` names a block device and one of `sampled` already has it, so
/// that sampling it again would count the same space twice.
pub open spec fn device_already_sampled(sampled: Seq<MountView>, device: Seq<char>) -> bool {
    &&& has_prefix(device, "/dev/"@)
    &&& exists|i: int| 0 <= i < sampled.len() && #[trigger] sampled[i].device == device
}

/// An entry is sampled when it is a reported filesystem whose device has
/// not been sampled yet.
pub open spec fn should_sample(sampled: Seq<MountView>, e: EntryView) -> bool {
    is_reported_filesystem(e.fs_type, e.mount_point) && !device_already_sampled(sampled, e.device)
}

/// The line at hand parsed to an entry that is to be sampled.
pub open spec fn is_sampleable(sampled: Seq<MountView>, e: Option<EntryView>) -> bool {
    match e {
        Some(x) => should_sample(sampled, x),
        None => false,
    }
}

/// The mount that a sampled entry with the given usage becomes.
pub open spec fn sampled_mount(e: EntryView, usage: Usage) -> MountView {
    MountView {
        mount_point: e.mount_point,
        device: e.device,
        fs_type: e.fs_type,
        usage,
        largest_files: Seq::empty(),
        largest_files_scanned_at: None,
    }
}

/// What every list of sampled mounts satisfies: each is a reported
/// filesystem without largest-files data, and no block device occurs
/// twice.
pub open spec fn well_sampled(ms: Seq<MountView>) -> bool {
    &&& forall|i: int|
        0 <= i < ms.len() ==> is_reported_filesystem(
            #[trigger] ms[i].fs_type,
            ms[i].mount_point,
        )
    &&& forall|i: int| 0 <= i < ms.len() ==> (#[trigger] ms[i]).largest_files.len() == 0
    &&& forall|i: int| 0 <= i < ms.len() ==> (#[trigger] ms[i]).largest_files_scanned_at is None
    &&& forall|i: int, j: int|
        0 <= i < ms.len() && 0 <= j < ms.len() && i != j && #[trigger] ms[i].device
            == #[trigger] ms[j].device ==> !has_prefix(ms[i].device, "/dev/"@)
}

/// The disk source that reads `/proc/mounts` and asks `statvfs` for the
/// usage of each reported filesystem.
pub struct ProcfsSource;

impl ProcfsSource {
    /// The `/proc/mounts` source.
    pub fn new() -> (r: Self)
        ensures
            r == ProcfsSource,
    {
        ProcfsSource
    }

    /// Starts a reading of the mount table whose text is `table`.
    pub fn begin_sample(&self, table: &str) -> (scan: MountScan)
        ensures
            scan.entries() == newline_pieces(table@).map_values(|l: Seq<char>| parsed_line(l)),
            scan.position() == 0,
            scan.pending() is None,
            scan.sampled() == Seq::<MountView>::empty(),
    {
        let chars = chars_of(table);
        let pieces = split_lines(&chars);
        let ghost lines = newline_pieces(table@);
        let mut entries: Vec<Option<ParsedEntry>> = Vec::new();
        let mut k: usize = 0;
        while k < pieces.len()
            invariant
                lines == newline_pieces(table@),
                char_vec_views(pieces@) == lines,
                k <= pieces@.len(),
                entries@.len() == k,
                forall|j: int|
                    0 <= j < k ==> opt_entry_view(#[trigger] entries@[j]) == parsed_line(lines[j]),
            decreases pieces@.len() - k,
        {
            assert(char_vec_views(pieces@).len() == pieces@.len());
            assert(char_vec_views(pieces@)[k as int] == pieces@[k as int]@);
            let line = string_of(&pieces[k]);
            assert(line@ == lines[k as int]);
            entries.push(parse_mount_line(line.as_str()));
            k = k + 1;
        }
        let scan = MountScan { entries, next: 0, pending: None, mounts: Vec::new() };
        assert(scan.entries() =~= lines.map_values(|l: Seq<char>| parsed_line(l)));
        assert(scan.sampled() =~= Seq::<MountView>::empty());
        scan
    }
}

/// A reading of the mount table in progress. Its caller asks for the next
/// mount point to measure, measures it, and hands back the usage (or
/// nothing, when `statvfs` failed), until no mount point is left; then
/// `finish` gives the mounts in the reported order.
pub struct MountScan {
    entries: Vec<Option<ParsedEntry>>,
    next: usize,
    pending: Option<usize>,
    mounts: Vec<Mount>,
}

impl MountScan {
    /// The parsed lines of the table, in order.
    pub closed spec fn entries(&self) -> Seq<Option<EntryView>> {
        self.entries@.map_values(|e: Option<ParsedEntry>| opt_entry_view(e))
    }

    /// How many lines have been looked at.
    pub closed spec fn position(&self) -> int {
        self.next as int
    }

    /// The entry whose usage is awaited, if any.
    pub closed spec fn pending(&self) -> Option<EntryView> {
        match self.pending {
            Some(k) => opt_entry_view(self.entries@[k as int]),
            None => None,
        }
    }

    /// The mounts sampled so far, in table order.
    pub closed spec fn sampled(&self) -> Seq<MountView> {
        mount_views(self.mounts@)
    }

    #[verifier::type_invariant]
    closed spec fn well_formed(&self) -> bool {
        &&& self.next <= self.entries@.len()
        &&& self.pending matches Some(k) ==> {
            &&& k < self.entries@.len()
            &&& is_sampleable(self.sampled(), opt_entry_view(self.entries@[k as int]))
        }
        &&& well_sampled(self.sampled())
    }

    /// Whether one of `mounts` has the block device `device`.
    fn device_taken(mounts: &Vec<Mount>, device: &String) -> (r: bool)
        ensures
            r == device_already_sampled(mount_views(mounts@), device@),
    {
        let d = chars_of(device.as_str());
        if !starts_with_text(&d, "/dev/") {
            return false;
        }
        let mut i: usize = 0;
        while i < mounts.len()
            invariant
                i <= mounts@.len(),
                has_prefix(device@, "/dev/"@),
                forall|j: int| 0 <= j < i ==> (#[trigger] mounts@[j]).device@ != device@,
            decreases mounts@.len() - i,
        {
            if same_text(mounts[i].device.as_str(), device.as_str()) {
                assert(mount_views(mounts@)[i as int].device == device@);
                return true;
            }
            i = i + 1;
        }
        assert forall|j: int| 0 <= j < mounts@.len() implies #[trigger] mount_views(
            mounts@,
        )[j].device != device@ by {
            assert(mount_views(mounts@)[j] == mounts@[j]@);
        }
        false
    }

    /// Moves on to the next line whose entry is to be sampled and gives its
    /// mount point; lines that do not parse, are not reported filesystems,
    /// or repeat a sampled block device are passed over. An entry still
    /// awaiting its usage is dropped, as if `statvfs` had failed on it.
    pub fn next_mount_point(&mut self) -> (r: Option<String>)
        ensures
            final(self).entries() == old(self).entries(),
            final(self).sampled() == old(self).sampled(),
            old(self).position() <= final(self).position() <= old(self).entries().len(),
            forall|j: int|
                old(self).position() <= j < final(self).position() - (if r is Some {
                    1int
                } else {
                    0
                }) ==> !is_sampleable(old(self).sampled(), #[trigger] old(self).entries()[j]),
            match r {
                Some(mp) => {
                    &&& final(self).position() > old(self).position()
                    &&& final(self).pending() == old(self).entries()[final(self).position() - 1]
                    &&& is_sampleable(old(self).sampled(), final(self).pending())
                    &&& final(self).pending() matches Some(e) && mp@ == e.mount_point
                },
                None => {
                    &&& final(self).position() == old(self).entries().len()
                    &&& final(self).pending() is None
                },
            },
    {
        proof {
            use_type_invariant(&*self);
        }
        self.pending = None;
        let ghost sampled = self.sampled();
        let ghost start = self.next as int;
        while self.next < self.entries.len()
            invariant
                start <= self.next <= self.entries@.len(),
                start == old(self).position(),
                self.entries@ == old(self).entries@,
                self.mounts@ == old(self).mounts@,
                self.pending is None,
                self.sampled() == sampled,
                well_sampled(sampled),
                forall|j: int|
                    start <= j < self.next ==> !is_sampleable(
                        sampled,
                        #[trigger] self.entries()[j],
                    ),
            decreases self.entries@.len() - self.next,
        {
            let k = self.next;
            assert(self.entries()[k as int] == opt_entry_view(self.entries@[k as int]));
            let chosen = match &self.entries[k] {
                Some(e) => is_real_filesystem(e) && !Self::device_taken(&self.mounts, &e.device),
                None => false,
            };
            self.next = k + 1;
            if chosen {
                self.pending = Some(k);
                let mp = match &self.entries[k] {
                    Some(e) => e.mount_point.clone(),
                    None => String::new(),
                };
                return Some(mp);
            }
        }
        assert(self.entries() =~= old(self).entries());
        None
    }

    /// Hands back the usage of the pending entry's filesystem: with a usage
    /// the entry becomes the next sampled mount; without one (`statvfs`
    /// failed) it is dropped.
    pub fn record_usage(&mut self, usage: Option<Usage>)
        ensures
            final(self).entries() == old(self).entries(),
            final(self).position() == old(self).position(),
            final(self).pending() is None,
            final(self).sampled() == (match (old(self).pending(), usage) {
                (Some(e), Some(u)) => old(self).sampled().push(sampled_mount(e, u)),
                _ => old(self).sampled(),
            }),
    {
        proof {
            use_type_invariant(&*self);
        }
        let pending = self.pending;
        self.pending = None;
        if let Some(k) = pending {
            if let Some(u) = usage {
                let ghost before = self.sampled();
                let m = match &self.entries[k] {
                    Some(e) => Mount {
                        mount_point: e.mount_point.clone(),
                        device: e.device.clone(),
                        fs_type: e.fs_type.clone(),
                        usage: u,
                        largest_files: Vec::new(),
                        largest_files_scanned_at: None,
                    },
                    None => Mount {
                        mount_point: String::new(),
                        device: String::new(),
                        fs_type: String::new(),
                        usage: u,
                        largest_files: Vec::new(),
                        largest_files_scanned_at: None,
                    },
                };
                let ghost e = opt_entry_view(self.entries@[k as int])->0;
                assert(m@ == sampled_mount(e, u)) by {
                    assert(file_views_empty(m.largest_files@));
                }
                let mut mounts: Vec<Mount> = Vec::new();
                std::mem::swap(&mut mounts, &mut self.mounts);
                mounts.push(m);
                assert(mount_views(mounts@) =~= before.push(sampled_mount(e, u)));
                proof {
                    let s = mount_views(mounts@);
                    assert forall|i: int, j: int|
                        0 <= i < s.len() && 0 <= j < s.len() && i != j && #[trigger] s[i].device
                            == #[trigger] s[j].device implies !has_prefix(s[i].device, "/dev/"@) by {
                        if i == before.len() {
                            assert(before[j].device == e.device);
                        } else if j == before.len() {
                            assert(before[i].device == e.device);
                        }
                    }
                }
                self.mounts = mounts;
            }
        }
    }

    /// Ends the reading: the sampled mounts in the reported order, root
    /// first, then by mount point.
    pub fn finish(self) -> (r: Vec<Mount>)
        ensures
            rearranges(mount_views(r@), self.sampled()),
            in_mount_order(mount_views(r@)),
            well_sampled(mount_views(r@)),
    {
        proof {
            use_type_invariant(&self);
        }
        let mounts = crate::model::duplicate_mounts(&self.mounts);
        let sorted = sort_mounts(mounts);
        proof {
            lemma_rearranged_views(sorted@, mounts@);
            lemma_well_sampled_rearranged(mount_views(sorted@), self.sampled());
        }
        sorted
    }
}

spec fn file_views_empty(files: Seq<crate::model::FileEntry>) -> bool {
    crate::model::file_views(files) =~= Seq::<crate::model::FileEntryView>::empty()
}

proof fn lemma_rearranged_views(r: Seq<Mount>, s: Seq<Mount>)
    requires
        rearranges(r, s),
    ensures
        rearranges(mount_views(r), mount_views(s)),
{
    let p = crate::arrange::lemma_rearranged_witness(r, s);
    assert forall|k: int| 0 <= k < r.len() implies #[trigger] mount_views(r)[k] == mount_views(
        s,
    )[p[k]] by {
        assert(r[k] == s[p[k]]);
    }
}

proof fn lemma_well_sampled_rearranged(r: Seq<MountView>, s: Seq<MountView>)
    requires
        rearranges(r, s),
        well_sampled(s),
    ensures
        well_sampled(r),
{
    let p = crate::arrange::lemma_rearranged_witness(r, s);
    assert forall|i: int| 0 <= i < r.len() implies is_reported_filesystem(
        #[trigger] r[i].fs_type,
        r[i].mount_point,
    ) by {
        assert(r[i] == s[p[i]]);
    }
    assert forall|i: int| 0 <= i < r.len() implies (#[trigger] r[i]).largest_files.len() == 0
        && r[i].largest_files_scanned_at is None by {
        assert(r[i] == s[p[i]]);
    }
    assert forall|i: int, j: int|
        0 <= i < r.len() && 0 <= j < r.len() && i != j && #[trigger] r[i].device
            == #[trigger] r[j].device implies !has_prefix(r[i].device, "/dev/"@) by {
        assert(r[i] == s[p[i]]);
        assert(r[j] == s[p[j]]);
        assert(s[p[i]].device == s[p[j]].device);
    }
}


// ---------------------------------------------------------------------
// Disk sources
// ---------------------------------------------------------------------

#[verifier::external_type_specification]
#[verifier::external_body]
pub struct ExAnyhowError(anyhow::Error);

/// Something that yields the current list of reported mounts.
pub trait DiskSource: Send + Sync {
    fn sample(&self) -> Result<Vec<Mount>, anyhow::Error>;
}

/// A disk source that always yields the mounts it was made with, for
/// development and tests.
pub struct MockSource {
    mounts: Vec<Mount>,
}

impl MockSource {
    /// The mounts this source yields.
    pub closed spec fn seeded(&self) -> Seq<MountView> {
        mount_views(self.mounts@)
    }

    /// A source that yields `mounts`.
    pub fn new(mounts: Vec<Mount>) -> (r: Self)
        ensures
            r.seeded() == mount_views(mounts@),
    {
        MockSource { mounts }
    }
}

impl DiskSource for MockSource {
    /// A copy of the seeded mounts; never fails.
    fn sample(&self) -> (r: Result<Vec<Mount>, anyhow::Error>)
        ensures
            r matches Ok(v) && mount_views(v@) == self.seeded(),
    {
        Ok(crate::model::duplicate_mounts(&self.mounts))
    }
}

} // verus!

//! The kernel's file system: read-only files unpacked from the boot-time tar image,
//! overlaid by writable in-memory files.
use vstd::prelude::*;
use vstd::string::*;
use vstd::utf8::*;
use vstd::slice::slice_to_vec;
use crate::text::str_eq;

verus! {

/// A file of the boot image.
#[derive(Debug, Clone)]
pub struct FileInfo {
    pub name: String,
    pub size: usize,
    pub data: Vec<u8>,
}

/// A file written at run time.
pub struct RamFile {
    pub name: String,
    pub data: Vec<u8>,
}

/// The image files (once unpacked) and the run-time files (once one has been written).
pub struct FileSystem {
    pub files: Option<Vec<FileInfo>>,
    pub ram_files: Option<Vec<RamFile>>,
}

/// A file as a name and its bytes.
pub type Entry = (Seq<char>, Seq<u8>);

pub open spec fn image_view(v: Seq<FileInfo>) -> Seq<Entry> {
    v.map_values(|f: FileInfo| (f.name@, f.data@))
}

pub open spec fn ram_view(v: Seq<RamFile>) -> Seq<Entry> {
    v.map_values(|f: RamFile| (f.name@, f.data@))
}

/// The bytes of the first entry named `name` at or after position `i`.
pub open spec fn find_from(s: Seq<Entry>, name: Seq<char>, i: int) -> Option<Seq<u8>>
    decreases s.len() - i,
{
    if i < 0 || i >= s.len() {
        None
    } else if s[i].0 == name {
        Some(s[i].1)
    } else {
        find_from(s, name, i + 1)
    }
}

pub open spec fn find(s: Seq<Entry>, name: Seq<char>) -> Option<Seq<u8>> {
    find_from(s, name, 0)
}

/// The entries at or after position `i` whose name is not `name`, in order.
pub open spec fn without_from(s: Seq<Entry>, name: Seq<char>, i: int) -> Seq<Entry>
    decreases s.len() - i,
{
    if i < 0 || i >= s.len() {
        seq![]
    } else if s[i].0 == name {
        without_from(s, name, i + 1)
    } else {
        seq![s[i]] + without_from(s, name, i + 1)
    }
}

pub open spec fn without(s: Seq<Entry>, name: Seq<char>) -> Seq<Entry> {
    without_from(s, name, 0)
}

impl FileSystem {
    pub open spec fn image(&self) -> Seq<Entry> {
        match self.files {
            Some(v) => image_view(v@),
            None => seq![],
        }
    }

    pub open spec fn ram(&self) -> Seq<Entry> {
        match self.ram_files {
            Some(v) => ram_view(v@),
            None => seq![],
        }
    }

    /// The contents a read of `name` gives: the run-time file first, else the image file.
    pub open spec fn lookup(&self, name: Seq<char>) -> Option<Seq<u8>> {
        match find(self.ram(), name) {
            Some(d) => Some(d),
            None => find(self.image(), name),
        }
    }

    /// A file system with nothing loaded.
    pub fn new() -> (r: Self)
        ensures
            r.files is None,
            r.ram_files is None,
    {
        FileSystem { files: None, ram_files: None }
    }

    /// Number of image files.
    pub fn file_count(&self) -> (r: usize)
        ensures
            r == self.image().len(),
    {
        match &self.files {
            Some(v) => v.len(),
            None => 0,
        }
    }

    /// Whether a file named `name` exists, written or in the image.
    pub fn file_exists(&self, name: &str) -> (r: bool)
        ensures
            r == (self.lookup(name@) is Some),
    {
        match self.file_read(name) {
            Some(_) => true,
            None => false,
        }
    }

    /// The contents of the file named `name`: a written file hides an image file.
    pub fn file_read(&self, name: &str) -> (r: Option<&[u8]>)
        ensures
            match r {
                Some(d) => self.lookup(name@) == Some(d@),
                None => self.lookup(name@) is None,
            },
    {
        if let Some(ramfs) = &self.ram_files {
            let mut i: usize = 0;
            while i < ramfs.len()
                invariant
                    self.ram_files == Some(*ramfs),
                    i <= ramfs.len(),
                    find_from(ram_view(ramfs@), name@, i as int) == find(ram_view(ramfs@), name@),
                decreases ramfs.len() - i,
            {
                if str_eq(ramfs[i].name.as_str(), name) {
                    return Some(ramfs[i].data.as_slice());
                }
                i = i + 1;
            }
        }
        if let Some(files) = &self.files {
            let mut i: usize = 0;
            while i < files.len()
                invariant
                    self.files == Some(*files),
                    self.lookup(name@) == find(image_view(files@), name@),
                    i <= files.len(),
                    find_from(image_view(files@), name@, i as int) == find(image_view(files@), name@),
                decreases files.len() - i,
            {
                if str_eq(files[i].name.as_str(), name) {
                    return Some(files[i].data.as_slice());
                }
                i = i + 1;
            }
        }
        None
    }

    /// Writes (or replaces) the run-time file `name` with `data`; always succeeds.
    pub fn file_write(&mut self, name: &str, data: &[u8]) -> (r: bool)
        ensures
            r,
            final(self).files == old(self).files,
            final(self).ram_files is Some,
            final(self).ram() == without(old(self).ram(), name@).push((name@, data@)),
            final(self).ram() == apply_op(old(self).ram(), FsOp::Write(name@, data@)),
    {
        let mut out: Vec<RamFile> = Vec::new();
        if let Some(old_files) = &self.ram_files {
            let mut i: usize = 0;
            assert(ram_view(out@) =~= Seq::<Entry>::empty());
            while i < old_files.len()
                invariant
                    i <= old_files.len(),
                    ram_view(out@) + without_from(ram_view(old_files@), name@, i as int)
                        == without(ram_view(old_files@), name@),
                decreases old_files.len() - i,
            {
                let f = &old_files[i];
                if !str_eq(f.name.as_str(), name) {
                    let copy = RamFile { name: f.name.clone(), data: slice_to_vec(f.data.as_slice()) };
                    let ghost before = ram_view(out@);
                    out.push(copy);
                    assert(ram_view(out@) =~= before.push((f.name@, f.data@)));
                    assert(ram_view(old_files@)[i as int] == (f.name@, f.data@));
                    assert(before + without_from(ram_view(old_files@), name@, i as int)
                        =~= ram_view(out@) + without_from(ram_view(old_files@), name@, i + 1));
                }
                i = i + 1;
            }
        } else {
            assert(ram_view(out@) =~= Seq::<Entry>::empty());
            assert(without(Seq::<Entry>::empty(), name@) =~= Seq::<Entry>::empty());
        }
        let ghost before = ram_view(out@);
        out.push(RamFile { name: String::from_str(name), data: slice_to_vec(data) });
        assert(ram_view(out@) =~= before.push((name@, data@)));
        self.ram_files = Some(out);
        true
    }

    /// Deletes the run-time file `name`; says whether one was deleted.
    pub fn file_remove(&mut self, name: &str) -> (r: bool)
        ensures
            final(self).files == old(self).files,
            old(self).ram_files is None ==> !r && final(self).ram_files is None,
            old(self).ram_files is Some ==> {
                &&& final(self).ram_files is Some
                &&& final(self).ram() == without(old(self).ram(), name@)
                &&& r == (find(old(self).ram(), name@) is Some)
            },
            final(self).ram() == apply_op(old(self).ram(), FsOp::Remove(name@)),
    {
        match &self.ram_files {
            None => false,
            Some(old_files) => {
                let mut out: Vec<RamFile> = Vec::new();
                let mut found = false;
                let mut i: usize = 0;
                assert(ram_view(out@) =~= Seq::<Entry>::empty());
                while i < old_files.len()
                    invariant
                        i <= old_files.len(),
                        ram_view(out@) + without_from(ram_view(old_files@), name@, i as int)
                            == without(ram_view(old_files@), name@),
                        found ==> find(ram_view(old_files@), name@) is Some,
                        !found ==> find_from(ram_view(old_files@), name@, i as int)
                            == find(ram_view(old_files@), name@),
                    decreases old_files.len() - i,
                {
                    let f = &old_files[i];
                    if !str_eq(f.name.as_str(), name) {
                        let copy = RamFile { name: f.name.clone(), data: slice_to_vec(f.data.as_slice()) };
                        let ghost before = ram_view(out@);
                        out.push(copy);
                        assert(ram_view(out@) =~= before.push((f.name@, f.data@)));
                        assert(ram_view(old_files@)[i as int] == (f.name@, f.data@));
                        assert(before + without_from(ram_view(old_files@), name@, i as int)
                            =~= ram_view(out@) + without_from(ram_view(old_files@), name@, i + 1));
                    } else {
                        proof { lemma_find_from_later(ram_view(old_files@), name@, i as int); }
                        found = true;
                    }
                    i = i + 1;
                }
                self.ram_files = Some(out);
                found
            }
        }
    }

    /// Renames the first run-time file called `old_name` to `new_name`; says whether there was one.
    pub fn file_rename(&mut self, old_name: &str, new_name: &str) -> (r: bool)
        ensures
            final(self).files == old(self).files,
            r == (find(old(self).ram(), old_name@) is Some),
            final(self).ram() == rename_first(old(self).ram(), old_name@, new_name@, 0),
            final(self).ram() == apply_op(old(self).ram(), FsOp::Rename(old_name@, new_name@)),
            old(self).ram_files is Some <==> final(self).ram_files is Some,
    {
        let mut taken: Option<Vec<RamFile>> = None;
        std::mem::swap(&mut taken, &mut self.ram_files);
        match taken {
            None => {
                assert(old(self).ram() =~= Seq::<Entry>::empty());
                assert(self.ram() =~= Seq::<Entry>::empty());
                false
            },
            Some(mut files) => {
                let ghost orig = ram_view(files@);
                assert(old(self).ram() == orig);
                let mut i: usize = 0;
                let mut found = false;
                while i < files.len() && !found
                    invariant
                        i <= files.len(),
                        orig == ram_view(files@),
                        found ==> i < files.len() && orig[i as int].0 == old_name@,
                        find_from(orig, old_name@, i as int) == find(orig, old_name@),
                        rename_first(orig, old_name@, new_name@, i as int)
                            == rename_first(orig, old_name@, new_name@, 0),
                    decreases files.len() - i + (if found { 0int } else { 1int }),
                {
                    if str_eq(files[i].name.as_str(), old_name) {
                        found = true;
                    } else {
                        i = i + 1;
                    }
                }
                if found {
                    let mut f = files.remove(i);
                    f.name = String::from_str(new_name);
                    files.insert(i, f);
                    assert(ram_view(files@) =~= orig.update(i as int, (new_name@, orig[i as int].1)));
                }
                self.ram_files = Some(files);
                found
            }
        }
    }
}

/// The entries with the first one named `old` (at or after `i`) renamed to `new`.
pub open spec fn rename_first(s: Seq<Entry>, old: Seq<char>, new: Seq<char>, i: int) -> Seq<Entry>
    decreases s.len() - i,
{
    if i < 0 || i >= s.len() {
        s
    } else if s[i].0 == old {
        s.update(i, (new, s[i].1))
    } else {
        rename_first(s, old, new, i + 1)
    }
}

proof fn lemma_find_from_later(s: Seq<Entry>, name: Seq<char>, i: int)
    requires
        0 <= i < s.len(),
        s[i].0 == name,
    ensures
        find_from(s, name, i) is Some,
{
}


// ---------------------------------------------------------------- listing

/// The names of `s` at or after `i` that are not yet in `out` (nor earlier in `s`) appended to `out`.
pub open spec fn add_new_names(out: Seq<Seq<char>>, s: Seq<Entry>, i: int) -> Seq<Seq<char>>
    decreases s.len() - i,
{
    if i < 0 || i >= s.len() {
        out
    } else if out.contains(s[i].0) {
        add_new_names(out, s, i + 1)
    } else {
        add_new_names(out.push(s[i].0), s, i + 1)
    }
}

/// The image file names in order, then each run-time name that is not listed yet.
pub open spec fn spec_file_list(fs: FileSystem) -> Seq<Seq<char>> {
    add_new_names(fs.image().map_values(|e: Entry| e.0), fs.ram(), 0)
}

fn names_contain(v: &Vec<String>, name: &str) -> (r: bool)
    ensures
        r == v.deep_view().contains(name@),
{
    let mut i: usize = 0;
    while i < v.len()
        invariant
            i <= v.len(),
            forall|j: int| 0 <= j < i ==> v.deep_view()[j] != name@,
        decreases v.len() - i,
    {
        if str_eq(v[i].as_str(), name) {
            assert(v.deep_view()[i as int] == name@);
            return true;
        }
        i = i + 1;
    }
    false
}

impl FileSystem {
    /// All file names: image files first, then the run-time files that add a new name.
    pub fn file_list(&self) -> (r: Vec<String>)
        ensures
            r.deep_view() == spec_file_list(*self),
    {
        let mut out: Vec<String> = Vec::new();
        let ghost names = self.image().map_values(|e: Entry| e.0);
        if let Some(files) = &self.files {
            let mut i: usize = 0;
            while i < files.len()
                invariant
                    self.files == Some(*files),
                    names == image_view(files@).map_values(|e: Entry| e.0),
                    i <= files.len(),
                    out.deep_view() == names.subrange(0, i as int),
                decreases files.len() - i,
            {
                let ghost before = out.deep_view();
                out.push(files[i].name.clone());
                assert(image_view(files@)[i as int] == (files@[i as int].name@, files@[i as int].data@));
                assert(names[i as int] == files@[i as int].name@);
                assert(out.deep_view() =~= before.push(files@[i as int].name@));
                assert(out.deep_view() =~= names.subrange(0, i + 1));
                i = i + 1;
            }
            assert(out.deep_view() =~= names);
        } else {
            assert(out.deep_view() =~= names);
        }
        if let Some(ramfs) = &self.ram_files {
            let mut i: usize = 0;
            while i < ramfs.len()
                invariant
                    self.ram_files == Some(*ramfs),
                    i <= ramfs.len(),
                    add_new_names(out.deep_view(), ram_view(ramfs@), i as int) == spec_file_list(*self),
                decreases ramfs.len() - i,
            {
                if !names_contain(&out, ramfs[i].name.as_str()) {
                    let ghost before = out.deep_view();
                    out.push(ramfs[i].name.clone());
                    assert(out.deep_view() =~= before.push(ramfs@[i as int].name@));
                }
                i = i + 1;
            }
        } else {
            assert(self.ram() =~= Seq::<Entry>::empty());
        }
        out
    }
}

// ---------------------------------------------------------------- tar image

/// std's UTF-8 check: the text that `bytes` encode, or `None` when they are not UTF-8.
#[verifier::external_body]
pub(crate) fn str_from_utf8(bytes: &[u8]) -> (r: Option<&str>)
    ensures
        r is Some <==> valid_utf8(bytes@),
        r matches Some(s) ==> s@ == decode_utf8(bytes@),
{
    std::str::from_utf8(bytes).ok()
}

/// Position of the first zero byte, or the length when there is none.
pub open spec fn first_zero_from(s: Seq<u8>, i: int) -> int
    decreases s.len() - i,
{
    if i < 0 || i >= s.len() {
        s.len() as int
    } else if s[i] == 0u8 {
        i
    } else {
        first_zero_from(s, i + 1)
    }
}

/// A NUL-padded field as text: the bytes before the first NUL, decoded as UTF-8, or empty
/// text when they are not UTF-8.
pub open spec fn spec_trim(s: Seq<u8>) -> Seq<char> {
    let b = s.subrange(0, first_zero_from(s, 0));
    if valid_utf8(b) { decode_utf8(b) } else { seq![] }
}

proof fn lemma_first_zero_bounds(s: Seq<u8>, i: int)
    requires
        0 <= i <= s.len(),
    ensures
        i <= first_zero_from(s, i) <= s.len(),
    decreases s.len() - i,
{
    if i < s.len() && s[i] != 0u8 {
        lemma_first_zero_bounds(s, i + 1);
    }
}

/// Reads a NUL-padded text field.
pub fn trim_str(s: &[u8]) -> (r: String)
    ensures
        r@ == spec_trim(s@),
{
    let mut end: usize = 0;
    while end < s.len() && s[end] != 0u8
        invariant
            end <= s.len(),
            first_zero_from(s@, end as int) == first_zero_from(s@, 0),
        decreases s.len() - end,
    {
        end = end + 1;
    }
    let mut prefix: Vec<u8> = Vec::new();
    let mut i: usize = 0;
    while i < end
        invariant
            end <= s.len(),
            i <= end,
            prefix@ == s@.subrange(0, i as int),
        decreases end - i,
    {
        prefix.push(s[i]);
        assert(prefix@ =~= s@.subrange(0, i + 1));
        i = i + 1;
    }
    match str_from_utf8(prefix.as_slice()) {
        Some(t) => String::from_str(t),
        None => String::new(),
    }
}

pub open spec fn is_octal_digit(c: char) -> bool {
    '0' <= c && c <= '7'
}

/// The number that the octal digits of `s` spell, other characters skipped.
pub open spec fn octal_value(s: Seq<char>) -> nat
    decreases s.len(),
{
    if s.len() == 0 {
        0
    } else {
        let r = octal_value(s.drop_last());
        if is_octal_digit(s.last()) {
            r * 8 + ((s.last() as int - '0' as int) as nat)
        } else {
            r
        }
    }
}

proof fn lemma_octal_monotone(s: Seq<char>, i: int)
    requires
        0 <= i <= s.len(),
    ensures
        octal_value(s.subrange(0, i)) <= octal_value(s),
    decreases s.len() - i,
{
    if i < s.len() {
        lemma_octal_monotone(s, i + 1);
        assert(s.subrange(0, i + 1).drop_last() =~= s.subrange(0, i));
    } else {
        assert(s.subrange(0, i) =~= s);
    }
}

/// Reads an octal number, skipping every character that is not an octal digit.
pub fn parse_octal(s: &str) -> (r: usize)
    requires
        octal_value(s@) <= usize::MAX,
    ensures
        r == octal_value(s@),
{
    let n = s.unicode_len();
    let mut acc: usize = 0;
    let mut i: usize = 0;
    assert(s@.subrange(0, 0) =~= Seq::<char>::empty());
    while i < n
        invariant
            n == s@.len(),
            i <= n,
            acc == octal_value(s@.subrange(0, i as int)),
            octal_value(s@) <= usize::MAX,
        decreases n - i,
    {
        let c = s.get_char(i);
        proof {
            lemma_octal_monotone(s@, i + 1);
            assert(s@.subrange(0, i + 1).drop_last() =~= s@.subrange(0, i as int));
        }
        if c >= '0' && c <= '7' {
            acc = acc * 8 + ((c as u32 - '0' as u32) as usize);
        }
        i = i + 1;
    }
    assert(s@.subrange(0, n as int) =~= s@);
    acc
}

/// One file of the tar image: its name, size and contents.
pub type TarEntry = (Seq<char>, nat, Seq<u8>);

pub open spec fn file_info_view(f: FileInfo) -> TarEntry {
    (f.name@, f.size as nat, f.data@)
}

/// `n` rounded up to a multiple of 512.
pub open spec fn round_up_512(n: int) -> int {
    (n + 511) - (n + 511) % 512
}

/// Walks the 512-byte headers of a tar image from offset `off`, collecting every named file
/// of non-zero size whose padded contents fit in the image. A header starting with a zero
/// byte ends the walk, as does the end of the image; entries named `.` or `..` or with an
/// empty name are skipped header by header. `None` when an offset or a size overflows the
/// machine word.
pub open spec fn tar_walk(d: Seq<u8>, off: int, acc: Seq<TarEntry>) -> Option<Seq<TarEntry>>
    decreases (if off <= d.len() { d.len() - off } else { 0 }),
{
    if off < 0 || off + 512 > d.len() {
        Some(acc)
    } else if d[off] == 0u8 {
        Some(acc)
    } else {
        let name = spec_trim(d.subrange(off, off + 100));
        if name.len() == 0 || name == seq!['.'] || name == seq!['.', '.'] {
            tar_walk(d, off + 512, acc)
        } else {
            let fsize = octal_value(spec_trim(d.subrange(off + 124, off + 136))) as int;
            let data_off = off + 512;
            let padded = round_up_512(fsize);
            if fsize + 511 > usize::MAX || data_off + padded + 512 > usize::MAX {
                None
            } else {
                let acc2 = if fsize > 0 && data_off + padded <= d.len() {
                    acc.push((name, fsize as nat, d.subrange(data_off, data_off + fsize)))
                } else {
                    acc
                };
                tar_walk(d, data_off + padded, acc2)
            }
        }
    }
}

fn copy_range(d: &[u8], from: usize, to: usize) -> (r: Vec<u8>)
    requires
        from <= to <= d@.len(),
    ensures
        r@ == d@.subrange(from as int, to as int),
{
    let mut r: Vec<u8> = Vec::new();
    let mut i = from;
    while i < to
        invariant
            from <= i <= to,
            to <= d@.len(),
            r@ == d@.subrange(from as int, i as int),
        decreases to - i,
    {
        r.push(d[i]);
        assert(r@ =~= d@.subrange(from as int, i + 1));
        i = i + 1;
    }
    r
}

/// Unpacks the files of a tar image.
pub fn parse_tar(data: &[u8]) -> (r: Vec<FileInfo>)
    requires
        data@.len() + 1024 <= usize::MAX,
        tar_walk(data@, 0, seq![]) is Some,
    ensures
        Some(r@.map_values(|f: FileInfo| file_info_view(f))) == tar_walk(data@, 0, seq![]),
{
    let size = data.len();
    let mut files: Vec<FileInfo> = Vec::new();
    let mut offset: usize = 0;
    assert(files@.map_values(|f: FileInfo| file_info_view(f)) =~= Seq::<TarEntry>::empty());
    while offset + 512 <= size && data[offset] != 0u8
        invariant
            size == data@.len(),
            size + 1024 <= usize::MAX,
            offset + 512 <= usize::MAX,
            tar_walk(data@, offset as int, files@.map_values(|f: FileInfo| file_info_view(f)))
                == tar_walk(data@, 0, seq![]),
            tar_walk(data@, 0, seq![]) is Some,
        decreases (if offset <= size { size - offset } else { 0 }),
    {
        let name_field = copy_range(data, offset, offset + 100);
        let name = trim_str(name_field.as_slice());
        let nlen = name.as_str().unicode_len();
        let is_dot = nlen == 1 && name.as_str().get_char(0) == '.';
        let is_dotdot = nlen == 2 && name.as_str().get_char(0) == '.' && name.as_str().get_char(1) == '.';
        proof {
            if is_dot { assert(name@ =~= seq!['.']); }
            if is_dotdot { assert(name@ =~= seq!['.', '.']); }
            if name@ == seq!['.'] { assert(is_dot); }
            if name@ == seq!['.', '.'] { assert(is_dotdot); }
        }
        if nlen == 0 || is_dot || is_dotdot {
            offset = offset + 512;
            continue;
        }
        let size_field = copy_range(data, offset + 124, offset + 136);
        let size_str = trim_str(size_field.as_slice());
        assert(size_field@ == data@.subrange(offset + 124, offset + 136));
        let file_size = parse_octal(size_str.as_str());
        let data_offset = offset + 512;
        let x = file_size + 511;
        assert(x & !511usize == x - x % 512) by (bit_vector);
        let padded = x & !511usize;
        if file_size > 0 && data_offset + padded <= size {
            let contents = copy_range(data, data_offset, data_offset + file_size);
            let ghost before = files@.map_values(|f: FileInfo| file_info_view(f));
            files.push(FileInfo { name, size: file_size, data: contents });
            assert(files@.map_values(|f: FileInfo| file_info_view(f)) =~= before.push(
                (name@, file_size as nat, data@.subrange(data_offset as int, data_offset + file_size))));
        }
        offset = data_offset + padded;
    }
    files
}

// ---------------------------------------------------------------- laws

/// Whether `e` is the file whose 512-byte header starts at `h` in the tar image `d`: its
/// name and size are the header's name and size fields, and its contents are the `size`
/// bytes that follow the header.
pub open spec fn file_at_header(d: Seq<u8>, h: int, e: TarEntry) -> bool {
    &&& 0 <= h
    &&& h % 512 == 0
    &&& h + 512 + e.1 <= d.len()
    &&& e.0 == spec_trim(d.subrange(h, h + 100))
    &&& e.1 == octal_value(spec_trim(d.subrange(h + 124, h + 136)))
    &&& e.2 == d.subrange(h + 512, h + 512 + e.1)
}

/// Whether every entry of `s` is the file of some header of `d`, the headers in increasing
/// order before `bound`.
pub open spec fn all_from_headers(d: Seq<u8>, s: Seq<TarEntry>, bound: int) -> bool {
    exists|hs: Seq<int>| {
        &&& hs.len() == s.len()
        &&& forall|i: int| 0 <= i < s.len() ==> #[trigger] file_at_header(d, hs[i], s[i]) && hs[i] < bound
        &&& forall|i: int, j: int| 0 <= i < j < s.len() ==> #[trigger] hs[i] < #[trigger] hs[j]
    }
}

proof fn lemma_walk_headers(d: Seq<u8>, off: int, acc: Seq<TarEntry>)
    requires
        0 <= off,
        off % 512 == 0,
        all_from_headers(d, acc, off),
    ensures
        tar_walk(d, off, acc) matches Some(r) ==> all_from_headers(d, r, d.len() as int + 1),
    decreases (if off <= d.len() { d.len() - off } else { 0 }),
{
    let hs0 = choose|hs: Seq<int>| {
        &&& hs.len() == acc.len()
        &&& forall|i: int| 0 <= i < acc.len() ==> #[trigger] file_at_header(d, hs[i], acc[i]) && hs[i] < off
        &&& forall|i: int, j: int| 0 <= i < j < acc.len() ==> #[trigger] hs[i] < #[trigger] hs[j]
    };
    if off < 0 || off + 512 > d.len() || d[off] == 0u8 {
        assert forall|i: int| 0 <= i < acc.len() implies #[trigger] file_at_header(d, hs0[i], acc[i]) && hs0[i] < d.len() as int + 1 by {
            assert(file_at_header(d, hs0[i], acc[i]));
        }
    } else {
        let name = spec_trim(d.subrange(off, off + 100));
        if name.len() == 0 || name == seq!['.'] || name == seq!['.', '.'] {
            assert forall|i: int| 0 <= i < acc.len() implies #[trigger] file_at_header(d, hs0[i], acc[i]) && hs0[i] < off + 512 by {
                assert(file_at_header(d, hs0[i], acc[i]));
            }
            lemma_walk_headers(d, off + 512, acc);
        } else {
            let fsize = octal_value(spec_trim(d.subrange(off + 124, off + 136))) as int;
            let data_off = off + 512;
            let padded = round_up_512(fsize);
            if !(fsize + 511 > usize::MAX || data_off + padded + 512 > usize::MAX) {
                assert(padded % 512 == 0 && padded >= fsize);
                let next = data_off + padded;
                if fsize > 0 && data_off + padded <= d.len() {
                    let e = (name, fsize as nat, d.subrange(data_off, data_off + fsize));
                    let acc2 = acc.push(e);
                    let hs = hs0.push(off);
                    assert(file_at_header(d, off, e));
                    assert forall|i: int| 0 <= i < acc2.len() implies #[trigger] file_at_header(d, hs[i], acc2[i]) && hs[i] < next by {
                        if i < acc.len() {
                            assert(file_at_header(d, hs0[i], acc[i]));
                        }
                    }
                    assert forall|i: int, j: int| 0 <= i < j < acc2.len() implies #[trigger] hs[i] < #[trigger] hs[j] by {
                        if j < acc.len() {
                            assert(hs0[i] < hs0[j]);
                        } else if i < acc.len() {
                            assert(file_at_header(d, hs0[i], acc[i]));
                        }
                    }
                    assert(hs.len() == acc2.len());
                    assert(all_from_headers(d, acc2, next));
                    lemma_walk_headers(d, next, acc2);
                } else {
                    assert forall|i: int| 0 <= i < acc.len() implies #[trigger] file_at_header(d, hs0[i], acc[i]) && hs0[i] < next by {
                        assert(file_at_header(d, hs0[i], acc[i]));
                    }
                    lemma_walk_headers(d, next, acc);
                }
            }
        }
    }
}

/// An image holding one named file of `size > 0` bytes (its header, its contents padded to
/// 512 bytes, then a block starting with a zero byte) unpacks to exactly that file: the
/// header's name, the size, and the `size` bytes after the header.
pub proof fn law_tar_single_file(d: Seq<u8>)
    requires
        d[0] != 0u8,
        spec_trim(d.subrange(0, 100)).len() > 0,
        spec_trim(d.subrange(0, 100)) != seq!['.'],
        spec_trim(d.subrange(0, 100)) != seq!['.', '.'],
        octal_value(spec_trim(d.subrange(124, 136))) > 0,
        512 + round_up_512(octal_value(spec_trim(d.subrange(124, 136))) as int) + 512 <= d.len(),
        d[512 + round_up_512(octal_value(spec_trim(d.subrange(124, 136))) as int)] == 0u8,
        d.len() + 1024 <= usize::MAX,
    ensures
        ({
            let size = octal_value(spec_trim(d.subrange(124, 136)));
            tar_walk(d, 0, seq![]) == Some(seq![(spec_trim(d.subrange(0, 100)), size, d.subrange(512, 512 + size as int))])
        }),
{
    let size = octal_value(spec_trim(d.subrange(124, 136))) as int;
    let next = 512 + round_up_512(size);
    assert(round_up_512(size) >= size);
    assert(tar_walk(d, next, seq![].push((spec_trim(d.subrange(0, 100)), size as nat, d.subrange(512, 512 + size))))
        == Some(seq![].push((spec_trim(d.subrange(0, 100)), size as nat, d.subrange(512, 512 + size)))));
    assert(seq![].push((spec_trim(d.subrange(0, 100)), size as nat, d.subrange(512, 512 + size)))
        =~= seq![(spec_trim(d.subrange(0, 100)), size as nat, d.subrange(512, 512 + size))]);
}

/// Every file unpacked from a tar image is the file of one of its 512-byte headers, the
/// headers in the order the files come: its name and size are the header's fields, and its
/// contents are the `size` bytes right after the header.
pub proof fn law_tar_files_follow_headers(d: Seq<u8>)
    ensures
        tar_walk(d, 0, seq![]) matches Some(r) ==> all_from_headers(d, r, d.len() as int + 1),
{
    let hs = Seq::<int>::empty();
    assert(hs.len() == Seq::<TarEntry>::empty().len());
    assert(all_from_headers(d, seq![], 0));
    lemma_walk_headers(d, 0, seq![]);
}


proof fn lemma_find_shift(p: Seq<Entry>, q: Seq<Entry>, m: Seq<char>, j: int)
    requires
        0 <= j <= q.len(),
    ensures
        find_from(p + q, m, p.len() + j) == find_from(q, m, j),
    decreases q.len() - j,
{
    if j < q.len() {
        lemma_find_shift(p, q, m, j + 1);
        assert((p + q)[p.len() + j] == q[j]);
    }
}

proof fn lemma_find_without(s: Seq<Entry>, n: Seq<char>, m: Seq<char>, i: int)
    requires
        0 <= i <= s.len(),
    ensures
        m != n ==> find(without_from(s, n, i), m) == find_from(s, m, i),
        find(without_from(s, n, i), n) is None,
    decreases s.len() - i,
{
    if i < s.len() {
        lemma_find_without(s, n, m, i + 1);
        let w = without_from(s, n, i + 1);
        if s[i].0 != n {
            lemma_find_shift(seq![s[i]], w, m, 0);
            lemma_find_shift(seq![s[i]], w, n, 0);
            assert((seq![s[i]] + w)[0] == s[i]);
        }
    }
}

proof fn lemma_find_push(a: Seq<Entry>, e: Entry, m: Seq<char>, j: int)
    requires
        0 <= j <= a.len(),
    ensures
        find_from(a.push(e), m, j) == match find_from(a, m, j) {
            Some(d) => Some(d),
            None => if e.0 == m { Some(e.1) } else { None },
        },
    decreases a.len() - j,
{
    if j < a.len() {
        lemma_find_push(a, e, m, j + 1);
        assert(a.push(e)[j] == a[j]);
    } else {
        assert(a.push(e)[j] == e);
        assert(find_from(a.push(e), m, j + 1) is None);
    }
}

/// A change to the run-time files: a write, a removal or a renaming.
pub enum FsOp {
    Write(Seq<char>, Seq<u8>),
    Remove(Seq<char>),
    Rename(Seq<char>, Seq<char>),
}

/// The run-time files after `op`, as `file_write`, `file_remove` and `file_rename` leave them.
pub open spec fn apply_op(ram: Seq<Entry>, op: FsOp) -> Seq<Entry> {
    match op {
        FsOp::Write(n, d) => without(ram, n).push((n, d)),
        FsOp::Remove(n) => without(ram, n),
        FsOp::Rename(a, b) => rename_first(ram, a, b, 0),
    }
}

/// The run-time files after each of `ops` in turn.
pub open spec fn apply_ops(ram: Seq<Entry>, ops: Seq<FsOp>) -> Seq<Entry>
    decreases ops.len(),
{
    if ops.len() == 0 { ram } else { apply_ops(apply_op(ram, ops[0]), ops.drop_first()) }
}

/// Whether `op` writes, removes or renames to or from `name`.
pub open spec fn op_touches(op: FsOp, name: Seq<char>) -> bool {
    match op {
        FsOp::Write(n, _) => n == name,
        FsOp::Remove(n) => n == name,
        FsOp::Rename(a, b) => a == name || b == name,
    }
}

proof fn lemma_find_update_other(s: Seq<Entry>, k: int, e: Entry, m: Seq<char>, j: int)
    requires
        0 <= k < s.len(),
        s[k].0 != m,
        e.0 != m,
    ensures
        find_from(s.update(k, e), m, j) == find_from(s, m, j),
    decreases s.len() - j,
{
    if 0 <= j < s.len() {
        lemma_find_update_other(s, k, e, m, j + 1);
    }
}

proof fn lemma_find_rename_other(s: Seq<Entry>, a: Seq<char>, b: Seq<char>, m: Seq<char>, i: int)
    requires
        m != a,
        m != b,
        0 <= i,
    ensures
        find(rename_first(s, a, b, i), m) == find(s, m),
    decreases s.len() - i,
{
    if i < s.len() {
        if s[i].0 == a {
            lemma_find_update_other(s, i, (b, s[i].1), m, 0);
        } else {
            lemma_find_rename_other(s, a, b, m, i + 1);
        }
    }
}

proof fn lemma_find_op_other(ram: Seq<Entry>, op: FsOp, m: Seq<char>)
    requires
        !op_touches(op, m),
    ensures
        find(apply_op(ram, op), m) == find(ram, m),
{
    match op {
        FsOp::Write(n, d) => {
            lemma_find_without(ram, n, m, 0);
            lemma_find_push(without(ram, n), (n, d), m, 0);
        },
        FsOp::Remove(n) => {
            lemma_find_without(ram, n, m, 0);
        },
        FsOp::Rename(a, b) => {
            lemma_find_rename_other(ram, a, b, m, 0);
        },
    }
}

/// Changes that leave `name` alone leave what a read of it gives.
pub proof fn law_ops_keep_other(ram: Seq<Entry>, ops: Seq<FsOp>, name: Seq<char>)
    requires
        forall|i: int| 0 <= i < ops.len() ==> !op_touches(#[trigger] ops[i], name),
    ensures
        find(apply_ops(ram, ops), name) == find(ram, name),
    decreases ops.len(),
{
    if ops.len() > 0 {
        lemma_find_op_other(ram, ops[0], name);
        assert forall|i: int| 0 <= i < ops.drop_first().len() implies !op_touches(#[trigger] ops.drop_first()[i], name) by {
            assert(ops.drop_first()[i] == ops[i + 1]);
        }
        law_ops_keep_other(apply_op(ram, ops[0]), ops.drop_first(), name);
    }
}

/// After `name` is written with `data`, a read of it gives `data` back (a run-time file hides
/// an image file of the same name) however many writes, removals and renamings of other
/// names follow.
pub proof fn law_read_after_write_then_others(before: FileSystem, after: FileSystem, name: Seq<char>, data: Seq<u8>,
    ops: Seq<FsOp>)
    requires
        after.files == before.files,
        after.ram() == apply_ops(apply_op(before.ram(), FsOp::Write(name, data)), ops),
        forall|i: int| 0 <= i < ops.len() ==> !op_touches(#[trigger] ops[i], name),
    ensures
        after.lookup(name) == Some(data),
{
    lemma_find_without(before.ram(), name, name, 0);
    lemma_find_push(without(before.ram(), name), (name, data), name, 0);
    law_ops_keep_other(apply_op(before.ram(), FsOp::Write(name, data)), ops, name);
}

/// A read gives back what the last write to the same name wrote, and a write leaves
/// every other name as it was.
pub proof fn law_read_after_write(before: FileSystem, after: FileSystem, name: Seq<char>, data: Seq<u8>, other: Seq<char>)
    requires
        after.files == before.files,
        after.ram() == without(before.ram(), name).push((name, data)),
    ensures
        after.lookup(name) == Some(data),
        other != name ==> after.lookup(other) == before.lookup(other),
{
    lemma_find_without(before.ram(), name, other, 0);
    lemma_find_push(without(before.ram(), name), (name, data), name, 0);
    lemma_find_push(without(before.ram(), name), (name, data), other, 0);
}

/// After a run-time file is removed, reading its name gives the image file of that name, if
/// any; every other name reads as before.
pub proof fn law_read_after_remove(before: FileSystem, after: FileSystem, name: Seq<char>, other: Seq<char>)
    requires
        after.files == before.files,
        after.ram() == without(before.ram(), name),
    ensures
        after.lookup(name) == find(before.image(), name),
        other != name ==> after.lookup(other) == before.lookup(other),
{
    lemma_find_without(before.ram(), name, other, 0);
}

} // verus!

//! Choosing the first user program: the first file whose name ends in `.elf`.
use vstd::prelude::*;
use vstd::string::*;
use crate::ramfs::{FileSystem, spec_file_list};

verus! {

/// Whether `name` ends in `.elf`.
pub open spec fn is_elf_name(name: Seq<char>) -> bool {
    name.len() >= 4 && name.subrange(name.len() - 4, name.len() as int) == seq!['.', 'e', 'l', 'f']
}

/// The index of the first name of `names` from `i` that ends in `.elf`, or the length.
pub open spec fn first_elf_from(names: Seq<Seq<char>>, i: int) -> int
    decreases names.len() - i,
{
    if i < 0 || i >= names.len() { names.len() as int } else if is_elf_name(names[i]) { i } else { first_elf_from(names, i + 1) }
}

/// Whether `name` ends in `.elf`.
pub fn ends_with_elf(name: &str) -> (r: bool)
    ensures
        r == is_elf_name(name@),
{
    let n = name.unicode_len();
    if n < 4 {
        return false;
    }
    let r = name.get_char(n - 4) == '.' && name.get_char(n - 3) == 'e' && name.get_char(n - 2) == 'l'
        && name.get_char(n - 1) == 'f';
    proof {
        let t = name@.subrange(n - 4, n as int);
        if r {
            assert(t =~= seq!['.', 'e', 'l', 'f']);
        } else if t == seq!['.', 'e', 'l', 'f'] {
            assert(t[0] == name@[n - 4] && t[1] == name@[n - 3] && t[2] == name@[n - 2] && t[3] == name@[n - 1]);
        }
    }
    r
}

/// The name of the first file (in `file_list` order) that ends in `.elf`.
pub fn first_elf_name(fs: &FileSystem) -> (r: Option<String>)
    ensures
        ({
            let names = spec_file_list(*fs);
            let i = first_elf_from(names, 0);
            match r {
                Some(n) => i < names.len() && n@ == names[i],
                None => i == names.len(),
            }
        }),
{
    let files = fs.file_list();
    let ghost names = files.deep_view();
    let mut i: usize = 0;
    while i < files.len()
        invariant
            names == files.deep_view(),
            names == spec_file_list(*fs),
            i <= files@.len(),
            first_elf_from(names, i as int) == first_elf_from(names, 0),
        decreases files@.len() - i,
    {
        if ends_with_elf(files[i].as_str()) {
            return Some(files[i].clone());
        }
        i = i + 1;
    }
    None
}

/// The contents of the first `.elf` file (see `first_elf_name`).
pub fn find_first_elf<'a>(fs: &'a FileSystem) -> (r: Option<&'a [u8]>)
    ensures
        ({
            let names = spec_file_list(*fs);
            let i = first_elf_from(names, 0);
            match r {
                Some(d) => i < names.len() && fs.lookup(names[i]) == Some(d@),
                None => i == names.len() || fs.lookup(names[i]) is None,
            }
        }),
{
    match first_elf_name(fs) {
        Some(name) => fs.file_read(name.as_str()),
        None => None,
    }
}

} // verus!

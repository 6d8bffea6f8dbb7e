//! A simulated file: a name, its bytes and whether it is open.
use vstd::prelude::*;
use vstd::slice::slice_to_vec;

verus! {

/// Something whose contents can be read out.
pub trait Read {
    /// What a read hands out.
    spec fn contents(&self) -> Seq<u8>;

    /// Appends the contents to `save_to` and gives their length.
    fn read(&self, save_to: &mut Vec<u8>) -> (r: Result<usize, String>)
        ensures
            match r {
                Ok(n) => {
                    &&& n == self.contents().len()
                    &&& final(save_to)@ == old(save_to)@ + self.contents()
                },
                Err(_) => final(save_to)@ == old(save_to)@,
            },
    ;
}

/// Whether a file is open.
#[derive(Debug, Clone, Copy, PartialEq, Eq, Structural)]
pub enum FileState {
    Open,
    Closed,
}

impl FileState {
    /// The state's name in capitals.
    pub fn label(&self) -> (r: &'static str)
        ensures
            *self == FileState::Open ==> r@ == "OPEN"@,
            *self == FileState::Closed ==> r@ == "CLOSED"@,
    {
        match self {
            FileState::Open => "OPEN",
            FileState::Closed => "CLOSED",
        }
    }
}

/// A file with a name and some bytes.
#[derive(Debug)]
pub struct File {
    pub name: String,
    data: Vec<u8>,
    pub state: FileState,
}

impl File {
    pub closed spec fn file_name(&self) -> Seq<char> {
        self.name@
    }

    pub closed spec fn file_state(&self) -> FileState {
        self.state
    }

    /// An empty, closed file called `name`.
    pub fn new(name: &str) -> (r: File)
        ensures
            r.file_name() == name@,
            r.contents() == Seq::<u8>::empty(),
            r.file_state() == FileState::Closed,
    {
        File { name: name.to_owned(), data: Vec::new(), state: FileState::Closed }
    }

    /// A closed file called `name` that holds `data`.
    pub fn new_with_data(name: &str, data: &[u8]) -> (r: File)
        ensures
            r.file_name() == name@,
            r.contents() == data@,
            r.file_state() == FileState::Closed,
    {
        let mut f = File::new(name);
        f.data = slice_to_vec(data);
        f
    }

    /// The number of bytes in the file.
    pub fn len(&self) -> (r: usize)
        ensures
            r == self.contents().len(),
    {
        self.data.len()
    }

    /// The file's name.
    pub fn name(&self) -> (r: String)
        ensures
            r@ == self.file_name(),
    {
        self.name.clone()
    }
}

impl Read for File {
    closed spec fn contents(&self) -> Seq<u8> {
        self.data@
    }

    fn read(&self, save_to: &mut Vec<u8>) -> (r: Result<usize, String>) {
        let mut i: usize = 0;
        while i < self.data.len()
            invariant
                i <= self.data@.len(),
                save_to@ == old(save_to)@ + self.data@.subrange(0, i as int),
            decreases self.data@.len() - i,
        {
            save_to.push(self.data[i]);
            i += 1;
            assert(save_to@ =~= old(save_to)@ + self.data@.subrange(0, i as int));
        }
        assert(self.data@.subrange(0, i as int) =~= self.data@);
        Ok(self.data.len())
    }
}

/// Relies on `rand::thread_rng` and `rand::Rng::gen_ratio(1, denominator)`:
/// true about once in `denominator` calls. Nothing is promised of one call.
#[verifier::external_body]
fn one_in(denominator: u32) -> (r: bool)
    requires
        denominator > 0,
{
    rand::Rng::gen_ratio(&mut rand::thread_rng(), 1, denominator)
}

/// Opens `f`, unless the call was `refused`.
pub fn open_with(f: File, refused: bool) -> (r: Result<File, String>)
    ensures
        match r {
            Ok(g) => !refused && g.file_state() == FileState::Open && g.file_name() == f.file_name() && g.contents()
                == f.contents(),
            Err(e) => refused && e@ == "Permission denied"@,
        },
{
    if refused {
        return Err("Permission denied".to_owned());
    }
    let mut f = f;
    f.state = FileState::Open;
    Ok(f)
}

/// Closes `f`, unless the call was `interrupted`.
pub fn close_with(f: File, interrupted: bool) -> (r: Result<File, String>)
    ensures
        match r {
            Ok(g) => !interrupted && g.file_state() == FileState::Closed && g.file_name() == f.file_name()
                && g.contents() == f.contents(),
            Err(e) => interrupted && e@ == "Interrupted by signal"@,
        },
{
    if interrupted {
        return Err("Interrupted by signal".to_owned());
    }
    let mut f = f;
    f.state = FileState::Closed;
    Ok(f)
}

/// Opens `f`; about one call in ten thousand is refused at random.
pub fn open(f: File) -> (r: Result<File, String>)
    ensures
        match r {
            Ok(g) => g.file_state() == FileState::Open && g.file_name() == f.file_name() && g.contents()
                == f.contents(),
            Err(e) => e@ == "Permission denied"@,
        },
{
    let refused = one_in(10_000);
    open_with(f, refused)
}

/// Closes `f`; about one call in ten thousand is interrupted at random.
pub fn close(f: File) -> (r: Result<File, String>)
    ensures
        match r {
            Ok(g) => g.file_state() == FileState::Closed && g.file_name() == f.file_name() && g.contents()
                == f.contents(),
            Err(e) => e@ == "Interrupted by signal"@,
        },
{
    let interrupted = one_in(10_000);
    close_with(f, interrupted)
}

} // verus!

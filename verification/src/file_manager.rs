use vstd::prelude::*;

verus! {

/// Relies on `home::home_dir`: the user's home directory as a string,
/// where the environment discloses one that is valid text. The value
/// depends on the environment, so nothing is promised of it.
#[verifier::external_body]
fn home_dir_string() -> (r: Option<String>) {
    home::home_dir().and_then(|p| p.to_str().map(|s| s.to_string()))
}

/// Where a store's flat file lives: the file's name, the directory that
/// holds it, and the joined path. Creating, reading, writing and
/// removing the file happen outside the library against `path`.
pub struct FileManagerImpl {
    pub file_name: String,
    pub path: String,
    pub home: String,
}

impl FileManagerImpl {
    /// The file's name.
    pub fn get_file_name(&self) -> (r: String)
        ensures
            r@ == self.file_name@,
    {
        self.file_name.clone()
    }

    /// The directory that holds the file.
    pub fn get_home_dir(&self) -> (r: &String)
        ensures
            r@ == self.home@,
    {
        &self.home
    }
}

/// Builds the location of a store file under a configuration directory,
/// by default `.cmd` under the user's home.
pub struct FileManagerBuilder {
    pub file_name: String,
    pub path: String,
    pub home: String,
}

impl FileManagerBuilder {
    /// Start from the settings directory under the user's home; `None`
    /// where the environment discloses no usable home directory.
    pub fn new(name: String) -> (r: Option<FileManagerBuilder>)
        ensures
            r matches Some(b) ==> {
                &&& b.file_name@ == name@
                &&& b.path@ == b.home@ + "/"@ + name@
                &&& b.home@.len() >= 5
                &&& b.home@.subrange(b.home@.len() - 5, b.home@.len() as int) == "/.cmd"@
            },
    {
        let base = match home_dir_string() {
            Some(h) => h,
            None => {
                return None;
            },
        };
        let mut home = base;
        home.append("/.cmd");
        let mut path = home.clone();
        path.append("/");
        path.append(name.as_str());
        proof {
            reveal_strlit("/.cmd");
            assert(home@.len() >= 5);
            assert(home@.subrange(home@.len() - 5, home@.len() as int) =~= "/.cmd"@);
        }
        Some(FileManagerBuilder { file_name: name, path, home })
    }

    /// Use the given directory in place of the default one.
    pub fn on_dir(self, dir: String) -> (r: FileManagerBuilder)
        ensures
            r.file_name@ == self.file_name@,
            r.home@ == dir@,
            r.path@ == dir@ + "/"@ + self.file_name@,
    {
        let mut path = dir.clone();
        path.append("/");
        path.append(self.file_name.as_str());
        FileManagerBuilder { file_name: self.file_name, path, home: dir }
    }

    /// The finished location.
    pub fn build(self) -> (r: FileManagerImpl)
        ensures
            r.file_name@ == self.file_name@,
            r.path@ == self.path@,
            r.home@ == self.home@,
    {
        FileManagerImpl { file_name: self.file_name, path: self.path, home: self.home }
    }
}

/// A location other parts of the tool can depend on.
pub trait Dependable {
}

impl Dependable for FileManagerImpl {
}

/// The location of a store file under the default settings directory;
/// `None` where no home directory is available.
pub fn build_file_manager(name: &str) -> (r: Option<FileManagerImpl>)
    ensures
        r matches Some(m) ==> {
            &&& m.file_name@ == name@
            &&& m.path@ == m.home@ + "/"@ + name@
            &&& m.home@.len() >= 5
            &&& m.home@.subrange(m.home@.len() - 5, m.home@.len() as int) == "/.cmd"@
        },
{
    match FileManagerBuilder::new(String::from_str(name)) {
        Some(b) => Some(b.build()),
        None => None,
    }
}

} // verus!

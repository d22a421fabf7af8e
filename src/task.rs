use vstd::prelude::*;

use crate::crypto::{derive_key, nonce_of, Crypto, Salt, NONCE_LEN, SALT_LEN};
use crate::file::{crypto_size, is_container, v2_header, FileCrypt, HEADER_V2_LEN};

verus! {

#[derive(Clone, Copy, Debug, PartialEq, Eq, Structural)]
pub enum Mode {
    Encrypt,
    Decrypt,
}

/// One file to transform: where it is read and where the result goes.
#[derive(Clone, Debug)]
pub struct Task {
    pub src: String,
    pub dest: String,
}

#[derive(Clone, Copy, Debug, PartialEq, Eq, Structural)]
pub enum Error {
    NotFile,
    Skip,
    Exists,
    Crypt(crate::file::Error),
}

/// The outcome of the checks made before a task touches any data.
pub open spec fn check_spec(src_is_file: bool, dest_exists: bool, skip_exists: bool, overwrite: bool) -> Result<(), Error> {
    if !src_is_file {
        Err(Error::NotFile)
    } else if dest_exists && skip_exists {
        Err(Error::Skip)
    } else if dest_exists && !overwrite {
        Err(Error::Exists)
    } else {
        Ok(())
    }
}

/// Runs tasks of one mode under one secret, with one policy for existing
/// destinations.
#[derive(Clone)]
pub struct TaskRuner {
    mode: Mode,
    skip_exists: bool,
    overwrite: bool,
    dry_run: bool,
    file_crypt: FileCrypt,
}

impl TaskRuner {
    pub closed spec fn mode_spec(&self) -> Mode {
        self.mode
    }

    pub closed spec fn skip_exists_spec(&self) -> bool {
        self.skip_exists
    }

    pub closed spec fn overwrite_spec(&self) -> bool {
        self.overwrite
    }

    pub closed spec fn dry_run_spec(&self) -> bool {
        self.dry_run
    }

    pub closed spec fn secret(&self) -> Seq<u8> {
        self.file_crypt.secret()
    }

    pub fn new(secret: &[u8], mode: Mode, skip_exists: bool, overwrite: bool, dry_run: bool) -> (r: TaskRuner)
        ensures
            r.mode_spec() == mode,
            r.skip_exists_spec() == skip_exists,
            r.overwrite_spec() == overwrite,
            r.dry_run_spec() == dry_run,
            r.secret() == secret@,
    {
        TaskRuner { mode, skip_exists, overwrite, dry_run, file_crypt: FileCrypt::new(secret) }
    }

    /// The container codec under this runner's secret, for streamed work.
    pub fn file_crypt(&self) -> (r: &FileCrypt)
        ensures
            r.secret() == self.secret(),
    {
        &self.file_crypt
    }

    pub fn mode(&self) -> (r: Mode)
        ensures
            r == self.mode_spec(),
    {
        self.mode
    }

    pub fn dry_run(&self) -> (r: bool)
        ensures
            r == self.dry_run_spec(),
    {
        self.dry_run
    }

    /// Decides whether a task may proceed, from what is known of its source
    /// and destination: the source must be a file; an existing destination
    /// is skipped when asked, else it is refused unless overwriting is on.
    pub fn check(&self, src_is_file: bool, dest_exists: bool) -> (r: Result<(), Error>)
        ensures
            r == check_spec(src_is_file, dest_exists, self.skip_exists_spec(), self.overwrite_spec()),
    {
        if !src_is_file {
            return Err(Error::NotFile);
        }
        if dest_exists {
            if self.skip_exists {
                return Err(Error::Skip);
            }
            if !self.overwrite {
                return Err(Error::Exists);
            }
        }
        Ok(())
    }

    /// Encrypts or decrypts the source bytes, by the runner's mode.
    pub fn process(&mut self, input: &[u8]) -> (r: Result<Vec<u8>, Error>)
        requires
            old(self).mode_spec() == Mode::Encrypt ==> HEADER_V2_LEN + crypto_size(input@.len()) <= usize::MAX,
        ensures
            *final(self) == *old(self),
            old(self).mode_spec() == Mode::Encrypt ==> {
                &&& r matches Ok(c) ==> c@.len() == HEADER_V2_LEN + crypto_size(input@.len())
                    && is_container(old(self).secret(), c@, input@)
                &&& r matches Err(e) ==> e == Error::Crypt(
                    crate::file::Error::Crypto(crate::crypto::Error::GenSalt),
                )
            },
            old(self).mode_spec() == Mode::Decrypt ==> {
                &&& r matches Ok(p) ==> is_container(old(self).secret(), input@, p@)
                &&& forall|p: Seq<u8>|
                    #[trigger] is_container(old(self).secret(), input@, p) ==> (r matches Ok(q)
                        && q@ == p)
                &&& r matches Err(e) ==> e is Crypt
            },
    {
        let ghost before = *self;
        let res = match self.mode {
            Mode::Encrypt => self.file_crypt.encrypt(input),
            Mode::Decrypt => self.file_crypt.decrypt(input),
        };
        assert(*self == before);
        match res {
            Ok(out) => Ok(out),
            Err(e) => Err(Error::Crypt(e)),
        }
    }

    /// Starts a streamed encryption of `plain_len` bytes under `salt`: the
    /// engine for the frames (see `crate::file::seal_frame`) and the header.
    pub fn begin_encrypt(&self, salt: &Salt, plain_len: usize) -> (r: (Crypto, Vec<u8>))
        requires
            salt@.len() == SALT_LEN,
            HEADER_V2_LEN + crypto_size(plain_len as nat) <= usize::MAX,
        ensures
            r.0.wf(),
            r.0.key() == derive_key(self.secret(), salt@),
            r.0.seal_nonce() == nonce_of(1, NONCE_LEN as nat),
            r.1@.len() == HEADER_V2_LEN,
            r.1@ == v2_header(
                self.secret(),
                salt@,
                (HEADER_V2_LEN + crypto_size(plain_len as nat)) as u64,
            ),
    {
        self.file_crypt.begin_encrypt(salt, plain_len)
    }

    /// Encrypts the source bytes under `salt`: the part of an encrypting
    /// task that follows the salt draw.
    pub fn encrypt_with_salt(&self, salt: &Salt, input: &[u8]) -> (r: Vec<u8>)
        requires
            salt@.len() == SALT_LEN,
            HEADER_V2_LEN + crypto_size(input@.len()) <= usize::MAX,
        ensures
            r@.len() == HEADER_V2_LEN + crypto_size(input@.len()),
            r@.subrange(6, 38) == salt@,
            is_container(self.secret(), r@, input@),
    {
        self.file_crypt.encrypt_with_salt(salt, input)
    }

    /// Whether a failed task may have left a partial destination to remove:
    /// true for a failure while transforming, false for a refused task.
    pub fn leaves_partial_output(e: &Error) -> (r: bool)
        ensures
            r == (*e is Crypt),
    {
        match e {
            Error::Crypt(_) => true,
            _ => false,
        }
    }
}

} // verus!

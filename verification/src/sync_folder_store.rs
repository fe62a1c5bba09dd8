//! The file layout of a store backed by a shared, externally synchronized
//! folder: one meta file per device, one immutable patch file per reference,
//! named by its content hash in hexadecimal.
use vstd::prelude::*;
use vstd::string::StringExecFns;
use vstd::string::StrSliceExecFns;
use crate::patch::PatchRef;
use crate::store::StoreError;

verus! {

/// The error type of the folder-backed store.
pub type SyncFolderStoreError = StoreError;

/// One hexadecimal digit.
pub open spec fn hex_digit(n: u8) -> char
    recommends
        n < 16,
{
    if n == 0 {
        '0'
    } else if n == 1 {
        '1'
    } else if n == 2 {
        '2'
    } else if n == 3 {
        '3'
    } else if n == 4 {
        '4'
    } else if n == 5 {
        '5'
    } else if n == 6 {
        '6'
    } else if n == 7 {
        '7'
    } else if n == 8 {
        '8'
    } else if n == 9 {
        '9'
    } else if n == 10 {
        'a'
    } else if n == 11 {
        'b'
    } else if n == 12 {
        'c'
    } else if n == 13 {
        'd'
    } else if n == 14 {
        'e'
    } else {
        'f'
    }
}

/// The lowercase hexadecimal form of a byte sequence, two digits per byte.
pub open spec fn hex_chars(b: Seq<u8>) -> Seq<char>
    decreases b.len(),
{
    if b.len() == 0 {
        Seq::empty()
    } else {
        hex_chars(b.drop_last()) + seq![hex_digit(b.last() / 16), hex_digit(b.last() % 16)]
    }
}

/// Appends one hexadecimal digit.
fn push_hex_digit(s: &mut String, n: u8)
    requires
        n < 16,
    ensures
        final(s)@ == old(s)@ + seq![hex_digit(n)],
{
    if n == 0 {
        s.append("0");
        proof {
            reveal_strlit("0");
        }
    } else if n == 1 {
        s.append("1");
        proof {
            reveal_strlit("1");
        }
    } else if n == 2 {
        s.append("2");
        proof {
            reveal_strlit("2");
        }
    } else if n == 3 {
        s.append("3");
        proof {
            reveal_strlit("3");
        }
    } else if n == 4 {
        s.append("4");
        proof {
            reveal_strlit("4");
        }
    } else if n == 5 {
        s.append("5");
        proof {
            reveal_strlit("5");
        }
    } else if n == 6 {
        s.append("6");
        proof {
            reveal_strlit("6");
        }
    } else if n == 7 {
        s.append("7");
        proof {
            reveal_strlit("7");
        }
    } else if n == 8 {
        s.append("8");
        proof {
            reveal_strlit("8");
        }
    } else if n == 9 {
        s.append("9");
        proof {
            reveal_strlit("9");
        }
    } else if n == 10 {
        s.append("a");
        proof {
            reveal_strlit("a");
        }
    } else if n == 11 {
        s.append("b");
        proof {
            reveal_strlit("b");
        }
    } else if n == 12 {
        s.append("c");
        proof {
            reveal_strlit("c");
        }
    } else if n == 13 {
        s.append("d");
        proof {
            reveal_strlit("d");
        }
    } else if n == 14 {
        s.append("e");
        proof {
            reveal_strlit("e");
        }
    } else {
        s.append("f");
        proof {
            reveal_strlit("f");
        }
    }
    proof {
        assert(s@ =~= old(s)@ + seq![hex_digit(n)]);
    }
}

/// The hexadecimal name of a reference.
pub fn hex_string(b: &Vec<u8>) -> (r: String)
    ensures
        r@ == hex_chars(b@),
{
    let mut out = String::new();
    let mut i: usize = 0;
    proof {
        assert(b@.take(0) =~= Seq::<u8>::empty());
        assert(out@ =~= hex_chars(b@.take(0)));
    }
    while i < b.len()
        invariant
            i <= b@.len(),
            out@ == hex_chars(b@.take(i as int)),
        decreases b@.len() - i,
    {
        let byte = b[i];
        push_hex_digit(&mut out, byte / 16);
        push_hex_digit(&mut out, byte % 16);
        proof {
            assert(b@.take(i as int + 1).drop_last() =~= b@.take(i as int));
            assert(b@.take(i as int + 1).last() == b@[i as int]);
            assert(out@ =~= hex_chars(b@.take(i as int + 1)));
        }
        i = i + 1;
    }
    proof {
        assert(b@.take(b@.len() as int) =~= b@);
    }
    out
}

/// Whether a character is a lowercase hexadecimal digit.
pub open spec fn is_hex_char(c: char) -> bool {
    exists|n: u8| n < 16 && hex_digit(n) == c
}

/// The value of one hexadecimal digit.
fn hex_digit_value(c: char) -> (r: Option<u8>)
    ensures
        r matches Some(n) ==> n < 16 && hex_digit(n) == c,
        r is Some <==> is_hex_char(c),
{
    match c {
        '0' => {
            proof {
                assert(hex_digit(0u8) == c);
            }
            Some(0u8)
        },
        '1' => {
            proof {
                assert(hex_digit(1u8) == c);
            }
            Some(1u8)
        },
        '2' => {
            proof {
                assert(hex_digit(2u8) == c);
            }
            Some(2u8)
        },
        '3' => {
            proof {
                assert(hex_digit(3u8) == c);
            }
            Some(3u8)
        },
        '4' => {
            proof {
                assert(hex_digit(4u8) == c);
            }
            Some(4u8)
        },
        '5' => {
            proof {
                assert(hex_digit(5u8) == c);
            }
            Some(5u8)
        },
        '6' => {
            proof {
                assert(hex_digit(6u8) == c);
            }
            Some(6u8)
        },
        '7' => {
            proof {
                assert(hex_digit(7u8) == c);
            }
            Some(7u8)
        },
        '8' => {
            proof {
                assert(hex_digit(8u8) == c);
            }
            Some(8u8)
        },
        '9' => {
            proof {
                assert(hex_digit(9u8) == c);
            }
            Some(9u8)
        },
        'a' => {
            proof {
                assert(hex_digit(10u8) == c);
            }
            Some(10u8)
        },
        'b' => {
            proof {
                assert(hex_digit(11u8) == c);
            }
            Some(11u8)
        },
        'c' => {
            proof {
                assert(hex_digit(12u8) == c);
            }
            Some(12u8)
        },
        'd' => {
            proof {
                assert(hex_digit(13u8) == c);
            }
            Some(13u8)
        },
        'e' => {
            proof {
                assert(hex_digit(14u8) == c);
            }
            Some(14u8)
        },
        'f' => {
            proof {
                assert(hex_digit(15u8) == c);
            }
            Some(15u8)
        },
        _ => {
            proof {
                assert forall|n: u8| n < 16 implies hex_digit(n) != c by {}
            }
            None
        },
    }
}

/// Reads a lowercase hexadecimal name back into bytes: the inverse of
/// `hex_string`. Succeeds exactly on even-length strings of hexadecimal
/// digits, and the result is the unique preimage under `hex_chars`.
pub fn from_hex(s: &str) -> (r: Option<Vec<u8>>)
    ensures
        r matches Some(v) ==> s@ == hex_chars(v@),
        r is Some <==> (s@.len() % 2 == 0 && forall|i: int|
            0 <= i < s@.len() ==> is_hex_char(#[trigger] s@[i])),
{
    let n = s.unicode_len();
    if n % 2 != 0 {
        return None;
    }
    let mut out: Vec<u8> = Vec::new();
    let mut i: usize = 0;
    proof {
        assert(s@.take(0) =~= Seq::<char>::empty());
        assert(hex_chars(out@) =~= s@.take(0));
    }
    while i < n
        invariant
            n == s@.len(),
            n % 2 == 0,
            i % 2 == 0,
            i <= n,
            hex_chars(out@) == s@.take(i as int),
            forall|j: int| 0 <= j < i ==> is_hex_char(#[trigger] s@[j]),
        decreases n - i,
    {
        let hi = match hex_digit_value(s.get_char(i)) {
            Some(v) => v,
            None => {
                return None;
            },
        };
        let lo = match hex_digit_value(s.get_char(i + 1)) {
            Some(v) => v,
            None => {
                return None;
            },
        };
        let byte: u8 = hi * 16 + lo;
        let ghost before = out@;
        out.push(byte);
        proof {
            assert(byte / 16 == hi && byte % 16 == lo) by (nonlinear_arith)
                requires
                    hi < 16,
                    lo < 16,
                    byte == hi * 16 + lo,
            ;
            assert(out@.drop_last() =~= before);
            assert(out@.last() == byte);
            assert(hex_chars(out@) =~= hex_chars(before) + seq![
                hex_digit(byte / 16),
                hex_digit(byte % 16),
            ]);
            assert(s@.take(i as int + 2) =~= s@.take(i as int) + seq![
                s@[i as int],
                s@[i as int + 1],
            ]);
            assert(hex_chars(out@) =~= s@.take(i as int + 2));
        }
        i = i + 2;
    }
    proof {
        assert(s@.take(n as int) =~= s@);
    }
    Some(out)
}

/// Where a shared folder keeps each device's meta file and each patch file.
/// The actual reads and writes live with the caller; everything that decides
/// a path or checks file contents is here and in the codec.
pub struct SyncFolderStore {
    /// Whether missing files should be created on first use.
    pub init: bool,
    pub root_folder: String,
    pub patch_folder: String,
    pub device_id: String,
}

impl SyncFolderStore {
    /// A layout rooted at `root_folder`, acting for `device_id`.
    pub fn new(root_folder: String, device_id: String) -> (r: SyncFolderStore)
        ensures
            !r.init,
            r.device_id@ == device_id@,
            r.root_folder@ == root_folder@,
            r.patch_folder@ == root_folder@ + "/patches"@,
    {
        let patch_folder = root_folder.clone().concat("/patches");
        SyncFolderStore { init: false, device_id, patch_folder, root_folder }
    }

    /// Sets whether missing files should be created on first use.
    pub fn should_init(self, should_init: bool) -> (r: SyncFolderStore)
        ensures
            r.init == should_init,
            r.device_id@ == self.device_id@,
            r.root_folder@ == self.root_folder@,
            r.patch_folder@ == self.patch_folder@,
    {
        SyncFolderStore {
            init: should_init,
            device_id: self.device_id,
            patch_folder: self.patch_folder,
            root_folder: self.root_folder,
        }
    }

    /// The path of this device's meta file.
    pub fn meta_file_path(&self) -> (r: String)
        ensures
            r@ == self.root_folder@ + "/meta/"@ + self.device_id@ + ".toml"@,
    {
        self.root_folder.clone().concat("/meta/").concat(self.device_id.as_str()).concat(".toml")
    }

    /// The path of the patch file for a reference.
    pub fn patch_file_path(&self, patch_ref: &PatchRef) -> (r: String)
        ensures
            r@ == self.patch_folder@ + "/"@ + hex_chars(patch_ref@) + ".toml"@,
    {
        let hex = hex_string(patch_ref.as_bytes());
        self.patch_folder.clone().concat("/").concat(hex.as_str()).concat(".toml")
    }
}

} // verus!

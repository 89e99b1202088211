//! Who may send requests.
use crate::engine::text;
use crate::error::AppError;
use vstd::prelude::*;

verus! {

/// What is required of those who send requests.
pub struct AccessConfig {
    /// The key that requests must carry. Without one the server is not set up.
    pub api_key: String,
    /// Whether a server without a key answers all requests.
    pub allow_auth_disabled: bool,
}

impl AccessConfig {
    /// Whether a request with a given key is answered. A server that has no key and was
    /// not told to do without one fails all requests.
    pub fn authorize(&self, given: Option<&str>) -> (r: Result<(), AppError>)
        ensures
            if self.api_key@.len() == 0 {
                if self.allow_auth_disabled {
                    r == Ok::<(), AppError>(())
                } else {
                    r matches Err(AppError::Internal(m)) && m@ == "no API key is configured"@
                }
            } else {
                r == (if given matches Some(key) && key@ == self.api_key@ {
                    Ok::<(), AppError>(())
                } else {
                    Err(AppError::Unauthorized)
                })
            },
    {
        if text::same_text(self.api_key.as_str(), "") {
            proof {
                reveal_strlit("");
            }
            if self.allow_auth_disabled {
                return Ok(());
            }
            return Err(AppError::Internal("no API key is configured".to_owned()));
        }
        proof {
            reveal_strlit("");
            assert(self.api_key@.len() > 0) by {
                if self.api_key@.len() == 0 {
                    assert(self.api_key@ =~= ""@);
                }
            }
        }
        match given {
            Some(key) => if text::same_text(key, self.api_key.as_str()) {
                Ok(())
            } else {
                Err(AppError::Unauthorized)
            },
            None => Err(AppError::Unauthorized),
        }
    }
}

} // verus!

//! Galois/counter mode for processes: the client of that mode.
use crate::capsules::aes::{Aes128CipherDriver, AesView, RO_ASSOCIATED_DATA, RO_INPUT, RO_IV, RO_KEY, RO_TAG, RW_TAG};
use crate::error::ErrorCode;
use crate::grant;
use crate::hil::cipher::{Aes128, GcmClient};
use crate::hil::trace::{Call, Observed, Port};
use vstd::prelude::*;

verus! {

impl<CBC, CCM, CTR, ECB, GCM> GcmClient<Aes128> for Aes128CipherDriver<
    CBC,
    CCM,
    CTR,
    ECB,
    GCM,
> {
    fn read_key(&mut self, key: &mut [u8]) -> (result: Result<(), ErrorCode>)
        ensures
            final(self)@ == old(self)@,
            match old(self)@.exact(RO_KEY, old(key)@.len()) {
                Ok(data) => result is Ok && final(key)@ == data,
                Err(error) => result == Err::<(), ErrorCode>(error),
            },
    {
        let result = self.read_exact(RO_KEY, key);
        proof {
            self.log@ = self.log@.push(
                Call::Fill { port: Port::Key, offered: old(key)@, buffer: key@, result },
            );
        }
        result
    }

    fn read_iv(&mut self, iv: &mut [u8]) -> (result: Result<(), ErrorCode>)
        ensures
            final(self)@ == old(self)@,
            match old(self)@.exact(RO_IV, old(iv)@.len()) {
                Ok(data) => result is Ok && final(iv)@ == data,
                Err(error) => result == Err::<(), ErrorCode>(error),
            },
    {
        let result = self.read_exact(RO_IV, iv);
        proof {
            self.log@ = self.log@.push(
                Call::Fill { port: Port::Iv, offered: old(iv)@, buffer: iv@, result },
            );
        }
        result
    }

    fn read_associated_data(&mut self, associated_data: &mut [u8]) -> (count: Result<usize, ErrorCode>)
        ensures
            match old(self)@.part(
                RO_ASSOCIATED_DATA,
                old(self)@.associated_data_offset as nat,
                old(associated_data)@.len(),
            ) {
                Ok(data) => {
                    &&& count is Ok
                    &&& count->Ok_0 == data.len()
                    &&& final(associated_data)@ == grant::overwritten(old(associated_data)@, 0, data)
                    &&& final(self)@ == (AesView {
                        associated_data_offset: (old(self)@.associated_data_offset + data.len()) as usize,
                        ..old(self)@
                    })
                },
                Err(error) => {
                    &&& count == Err::<usize, ErrorCode>(error)
                    &&& final(self)@ == old(self)@
                },
            },
    {
        let count = self.take_associated_data(associated_data);
        proof {
            self.log@ = self.log@.push(
                Call::Read {
                    port: Port::AssociatedData,
                    offered: old(associated_data)@,
                    buffer: associated_data@,
                    count,
                },
            );
        }
        count
    }

    fn read_input(&mut self, input: &mut [u8]) -> (count: Result<usize, ErrorCode>)
        ensures
            match old(self)@.part(RO_INPUT, old(self)@.input_offset as nat, old(input)@.len()) {
                Ok(data) => {
                    &&& count is Ok
                    &&& count->Ok_0 == data.len()
                    &&& final(input)@ == grant::overwritten(old(input)@, 0, data)
                    &&& final(self)@ == (AesView {
                        input_offset: (old(self)@.input_offset + data.len()) as usize,
                        ..old(self)@
                    })
                },
                Err(error) => {
                    &&& count == Err::<usize, ErrorCode>(error)
                    &&& final(self)@ == old(self)@
                },
            },
    {
        let count = self.take_input(input);
        proof {
            self.log@ = self.log@.push(
                Call::Read {
                    port: Port::Input,
                    offered: old(input)@,
                    buffer: input@,
                    count,
                },
            );
        }
        count
    }

    fn read_tag(&mut self, tag: &mut [u8]) -> (result: Result<(), ErrorCode>)
        ensures
            final(self)@ == old(self)@,
            match old(self)@.exact(RO_TAG, old(tag)@.len()) {
                Ok(data) => result is Ok && final(tag)@ == data,
                Err(error) => result == Err::<(), ErrorCode>(error),
            },
    {
        let result = self.read_exact(RO_TAG, tag);
        proof {
            self.log@ = self.log@.push(
                Call::Fill { port: Port::Tag, offered: old(tag)@, buffer: tag@, result },
            );
        }
        result
    }

    fn write_output(&mut self, output: &[u8]) -> (result: Result<(), ErrorCode>)
        ensures
            final(self)@ == old(self)@.output(output@).0,
            grant::same_result(result, old(self)@.output(output@).1),
    {
        let result = self.put_output(output);
        proof {
            self.log@ = self.log@.push(
                Call::Write { port: Port::Output, data: output@, result },
            );
        }
        result
    }

    fn write_tag(&mut self, tag: &[u8]) -> (result: Result<(), ErrorCode>)
        ensures
            final(self)@ == old(self)@.written(RW_TAG, 0, tag@),
            grant::same_result(result, old(self)@.write_result(RW_TAG, 0, tag@.len())),
    {
        let result = self.write_at(RW_TAG, 0, tag);
        proof {
            self.log@ = self.log@.push(Call::Write { port: Port::Tag, data: tag@, result });
        }
        result
    }

    fn crypt_done(&mut self, result: Result<(), ErrorCode>)
        ensures
            final(self)@ == old(self)@.finished(result),
    {
        self.finish(result);
        proof {
            self.log@ = self.log@.push(Call::Done { result });
        }
    }
}

} // verus!

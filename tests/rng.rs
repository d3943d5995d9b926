use rand::Rng;
use rand_core::{Error, RngCore};
use rand_ctr_drbg::drbg::{Cipher, CtrDrbg};

struct Adapter(CtrDrbg);

impl RngCore for Adapter {
    fn fill_bytes(&mut self, dest: &mut [u8]) {
        let mut buf = dest.to_vec();
        self.0.fill_bytes(&mut buf);
        dest.copy_from_slice(&buf);
    }

    fn try_fill_bytes(&mut self, dest: &mut [u8]) -> Result<(), Error> {
        self.fill_bytes(dest);
        Ok(())
    }

    fn next_u32(&mut self) -> u32 {
        self.0.next_u32()
    }

    fn next_u64(&mut self) -> u64 {
        self.0.next_u64()
    }
}

#[test]
fn gen_through_rand() {
    let entropy_input = vec![0u8; 32];
    let pers = vec![0u8; 32];
    let mut ctr_drbg = Adapter(CtrDrbg::new(Cipher::Aes128, &entropy_input, &pers).unwrap());

    assert_eq!(ctr_drbg.gen::<i32>(), -752546092);
    assert_eq!(ctr_drbg.gen::<i32>(), -1324191812);
    assert_eq!(ctr_drbg.gen::<bool>(), false);
    assert_eq!(ctr_drbg.gen::<bool>(), true);
}

use wiremocket::prelude::{path, Mock, Times};
use wiremocket::{all_mocks_pass, Mock as RootMock, ValidJsonMatcher};

#[test]
fn prelude_names_the_api() {
    let mocks = vec![Mock::given(path("x")).expect(Times::default()), Mock::given(ValidJsonMatcher).expect(0)];
    assert!(all_mocks_pass(&mocks));
}

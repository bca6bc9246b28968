{
  "addr_width_bits": 8,
  "device_name": "demo_imu",
  "i2c_address_7bit": 66,
  "i2c_internal_pullups": true,
  "i2c_respond_to_general_call": false,
  "default_fill": 255,
  "auto_increment": true,
  "registers": [
    { "addr": 0, "default": 66, "access": "ro", "name": "WHO_AM_I" },
    { "addr": 16, "default": 0, "access": "rw", "name": "CTRL" },
    {
      "addr": 32,
      "default": 0,
      "access": "ro",
      "name": "ACCEL_X",
      "csv": { "path": "csv/accel_x.csv", "mode": "host_stream" }
    },
    {
      "addr": 33,
      "default": 25,
      "access": "ro",
      "name": "TEMP",
      "csv": { "path": "csv/temp.csv", "mode": "embedded" }
    }
  ]
}
